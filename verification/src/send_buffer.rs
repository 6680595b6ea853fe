//! The send buffer: the bytes that the application has handed over and the peer has not
//! acknowledged, and the record of what has been sent of them.
//!
//! Positions are offsets in the local stream. The FIN, once queued, takes the offset behind
//! the last byte. The segments in flight are recorded as they were sent, in order; together
//! they cover what lies between the oldest unacknowledged offset and the next one to send.

use vstd::prelude::*;
use crate::bytes_util::{append_part, copy_part, drop_front};
use crate::error::SendError;
use crate::seq::{MAX_OFFSET, MAX_WINDOW};

verus! {

/// The record of one segment in flight.
#[derive(Clone, Copy, Debug, PartialEq, Eq, Structural)]
pub struct SentSegment {
    /// The offset of its first byte.
    pub start: u64,
    /// The number of its bytes.
    pub len: u64,
    /// It carries the FIN, behind its bytes.
    pub fin: bool,
    /// When it was last sent.
    pub sent_at: u64,
    /// It, or a segment in flight with it, has been sent again; its round trip is not
    /// measured.
    pub retransmitted: bool,
    /// The peer has reported it as received out of order.
    pub sacked: bool,
}

impl SentSegment {
    /// The number of offsets that the segment takes: its bytes, and one for a FIN.
    pub open spec fn space(self) -> int {
        self.len + if self.fin {
            1int
        } else {
            0int
        }
    }

    /// The offset behind the segment.
    pub open spec fn end(self) -> int {
        self.start + self.space()
    }

    /// Executable form of [`SentSegment::end`].
    pub fn end_offset(&self) -> (r: u128)
        ensures
            r == self.end(),
    {
        self.start as u128 + self.len as u128 + if self.fin {
            1
        } else {
            0
        }
    }

    /// The segment without what lies before `ack`, which is inside it.
    pub open spec fn cut_to(self, ack: u64) -> SentSegment {
        SentSegment { start: ack, len: (self.len - (ack - self.start)) as u64, ..self }
    }
}

/// A segment to put on the wire: where it starts, its bytes, and whether the FIN follows
/// them.
#[derive(Debug)]
pub struct Outgoing {
    pub start: u64,
    pub payload: Vec<u8>,
    pub fin: bool,
}

/// The mathematical content of an [`Outgoing`].
pub struct OutgoingView {
    pub start: u64,
    pub payload: Seq<u8>,
    pub fin: bool,
}

impl View for Outgoing {
    type V = OutgoingView;

    open spec fn view(&self) -> OutgoingView {
        OutgoingView { start: self.start, payload: self.payload@, fin: self.fin }
    }
}

/// The segments cover what lies between `una` and `nxt` without gap or overlap, none is
/// empty, and only one that ends the stream carries the FIN.
pub open spec fn tiles(sent: Seq<SentSegment>, una: int, nxt: int, end: int) -> bool {
    &&& sent.len() == 0 ==> una == nxt
    &&& sent.len() > 0 ==> sent[0].start == una && sent[sent.len() - 1].end() == nxt
    &&& forall|i: int|
        0 <= i < sent.len() ==> {
            let s = #[trigger] sent[i];
            s.space() > 0 && s.start + s.len <= end && (s.fin ==> s.start + s.len == end)
        }
    &&& forall|i: int| 0 <= i < sent.len() - 1 ==> (#[trigger] sent[i]).end() == sent[i + 1].start
}

/// The segments without those that end at or before `ack`, and without the part before
/// `ack` of the one that `ack` falls into.
pub open spec fn trimmed(sent: Seq<SentSegment>, ack: u64) -> Seq<SentSegment>
    decreases sent.len(),
{
    if sent.len() == 0 {
        sent
    } else if sent[0].end() <= ack {
        trimmed(sent.drop_first(), ack)
    } else if sent[0].start < ack {
        seq![sent[0].cut_to(ack)] + sent.drop_first()
    } else {
        sent
    }
}

/// When the oldest segment was sent that `ack` covers whole and that has not been
/// retransmitted: the start of the round trip that `ack` completes.
pub open spec fn sample_for(sent: Seq<SentSegment>, ack: u64) -> Option<u64>
    decreases sent.len(),
{
    if sent.len() == 0 || sent[0].end() > ack {
        None
    } else if !sent[0].retransmitted {
        Some(sent[0].sent_at)
    } else {
        sample_for(sent.drop_first(), ack)
    }
}

/// The segments without those at the end that reach behind `right`.
pub open spec fn kept_within(sent: Seq<SentSegment>, right: int) -> Seq<SentSegment>
    decreases sent.len(),
{
    if sent.len() > 0 && sent[sent.len() - 1].end() > right {
        kept_within(sent.drop_last(), right)
    } else {
        sent
    }
}

/// The index of the oldest segment that the peer has not reported as received, from `from`
/// on; the number of segments if there is none.
pub open spec fn oldest_unsacked(sent: Seq<SentSegment>, from: int) -> int
    decreases sent.len() - from,
{
    if from >= sent.len() {
        sent.len() as int
    } else if !sent[from].sacked {
        from
    } else {
        oldest_unsacked(sent, from + 1)
    }
}

/// The mathematical content of a [`SendBuffer`].
pub struct SendBufferView {
    /// The offset of the first byte of the stream.
    pub origin: u64,
    /// The oldest offset that the peer has not acknowledged.
    pub una: u64,
    /// The next offset to send.
    pub nxt: u64,
    /// The offset behind the last byte that the application has handed over. It is the
    /// offset of the FIN.
    pub end: u64,
    /// The bytes from `una` to `end`.
    pub data: Seq<u8>,
    /// The most bytes that `data` holds.
    pub capacity: usize,
    /// The application has closed the stream.
    pub fin_queued: bool,
    /// The segments in flight, the oldest first.
    pub sent: Seq<SentSegment>,
}

impl SendBufferView {
    /// The offset behind everything that is to be sent: `end`, and one more for a FIN.
    pub open spec fn last(self) -> int {
        self.end + if self.fin_queued {
            1int
        } else {
            0int
        }
    }

    /// The offset of the first byte of `data`.
    pub open spec fn data_start(self) -> int {
        if self.una < self.end {
            self.una as int
        } else {
            self.end as int
        }
    }

    pub open spec fn wf(self) -> bool {
        &&& self.origin <= self.una <= self.nxt <= self.last()
        &&& self.end <= MAX_OFFSET
        &&& self.capacity <= MAX_WINDOW
        &&& self.data.len() <= self.capacity
        &&& self.data.len() == self.end - self.data_start()
        &&& tiles(self.sent, self.una as int, self.nxt as int, self.end as int)
    }

    /// An empty buffer for a stream whose first byte has the offset `origin`.
    pub open spec fn empty(origin: u64, capacity: usize) -> SendBufferView {
        SendBufferView {
            origin,
            una: origin,
            nxt: origin,
            end: origin,
            data: Seq::empty(),
            capacity,
            fin_queued: false,
            sent: Seq::empty(),
        }
    }

    /// The number of offsets in flight.
    pub open spec fn in_flight(self) -> int {
        self.nxt - self.una
    }

    /// The number of bytes that the buffer can still take.
    pub open spec fn room(self) -> int {
        let free = self.capacity - self.data.len();
        if free < MAX_OFFSET - self.end {
            free
        } else {
            MAX_OFFSET - self.end
        }
    }

    /// The number of bytes that the buffer takes of `avail` offered ones, of which the
    /// caller wants at most `max_len` taken.
    pub open spec fn accepts(self, avail: int, max_len: int) -> int {
        let n = if avail < max_len {
            avail
        } else {
            max_len
        };
        if n < self.room() {
            n
        } else {
            self.room()
        }
    }

    /// The buffer after `bytes` were appended.
    pub open spec fn appended(self, bytes: Seq<u8>) -> SendBufferView {
        SendBufferView {
            data: self.data + bytes,
            end: (self.end + bytes.len()) as u64,
            ..self
        }
    }

    /// The FIN has been sent.
    pub open spec fn fin_sent(self) -> bool {
        self.fin_queued && self.nxt == self.end + 1
    }

    /// The FIN has been acknowledged.
    pub open spec fn fin_acked(self) -> bool {
        self.fin_queued && self.una == self.end + 1
    }

    /// The number of bytes in the next new segment, for a window of `wnd` offsets from
    /// `una` and segments of at most `mss` bytes.
    pub open spec fn next_len(self, wnd: int, mss: int) -> int {
        let left = self.end - self.nxt;
        let open = self.una + wnd - self.nxt;
        let a = if left < open {
            left
        } else {
            open
        };
        let b = if a < mss {
            a
        } else {
            mss
        };
        if b < 0 {
            0
        } else {
            b
        }
    }

    /// The next new segment carries the FIN: the FIN is queued, the segment's bytes are the
    /// last ones, and the window has an offset left for it.
    pub open spec fn next_fin(self, wnd: int, mss: int) -> bool {
        &&& self.fin_queued
        &&& self.nxt + self.next_len(wnd, mss) == self.end
        &&& self.end < self.una + wnd
    }

    /// Something new can be sent in a window of `wnd` offsets from `una`: a byte, or the
    /// FIN.
    pub open spec fn sendable(self, wnd: int) -> bool {
        ||| self.nxt < self.end && self.nxt < self.una + wnd
        ||| self.fin_queued && self.nxt == self.end && self.end < self.una + wnd
    }

    /// The next new segment.
    pub open spec fn next_segment(self, wnd: int, mss: int) -> OutgoingView {
        OutgoingView {
            start: self.nxt,
            payload: self.data.subrange(
                self.nxt - self.una,
                self.nxt - self.una + self.next_len(wnd, mss),
            ),
            fin: self.next_fin(wnd, mss),
        }
    }

    /// The buffer after the next new segment was sent at the time `now`.
    pub open spec fn transmitted(self, wnd: int, mss: int, now: u64) -> SendBufferView {
        let len = self.next_len(wnd, mss);
        let fin = self.next_fin(wnd, mss);
        let record = SentSegment {
            start: self.nxt,
            len: len as u64,
            fin,
            sent_at: now,
            retransmitted: false,
            sacked: false,
        };
        SendBufferView { nxt: record.end() as u64, sent: self.sent.push(record), ..self }
    }

    /// The buffer after every new segment that a window of `wnd` offsets from `una` lets
    /// through was sent at the time `now`, and these segments in the order in which they
    /// were sent.
    pub open spec fn all_transmitted(self, wnd: int, mss: int, now: u64) -> (
        SendBufferView,
        Seq<OutgoingView>,
    )
        decreases self.last() - self.nxt,
    {
        if self.wf() && mss >= 1 && self.sendable(wnd) {
            let (b, rest) = self.transmitted(wnd, mss, now).all_transmitted(wnd, mss, now);
            (b, seq![self.next_segment(wnd, mss)] + rest)
        } else {
            (self, Seq::empty())
        }
    }

    /// The acknowledgment of everything before `ack` acknowledges something new and nothing
    /// that has not been sent.
    pub open spec fn acks_new(self, ack: u64) -> bool {
        self.una < ack <= self.nxt
    }

    /// The buffer after the peer has acknowledged everything before `ack`. An acknowledgment
    /// of nothing new, or of what has not been sent, changes nothing.
    pub open spec fn acked(self, ack: u64) -> SendBufferView {
        let upto = if ack < self.end {
            ack as int
        } else {
            self.end as int
        };
        if self.acks_new(ack) {
            SendBufferView {
                una: ack,
                data: self.data.skip(upto - self.data_start()),
                sent: trimmed(self.sent, ack),
                ..self
            }
        } else {
            self
        }
    }

    /// The start of the round trip that the acknowledgment of everything before `ack`
    /// completes, if it completes one that can be measured.
    pub open spec fn round_trip_start(self, ack: u64) -> Option<u64> {
        if self.acks_new(ack) {
            sample_for(self.sent, ack)
        } else {
            None
        }
    }

    /// Nothing is left to send or to be acknowledged but the FIN, which is queued.
    pub open spec fn only_fin_left(self) -> bool {
        self.fin_queued && self.data.len() == 0
    }

    /// The buffer after the peer has reported the offsets from `lo` to `hi` as received out
    /// of order: every segment in flight that lies within them is marked.
    pub open spec fn sacked(self, lo: u64, hi: u64) -> SendBufferView {
        SendBufferView {
            sent: Seq::new(
                self.sent.len(),
                |i: int|
                    if lo <= self.sent[i].start && self.sent[i].end() <= hi {
                        SentSegment { sacked: true, ..self.sent[i] }
                    } else {
                        self.sent[i]
                    },
            ),
            ..self
        }
    }

    /// The segment to send again when the retransmission timer fires: the oldest one in
    /// flight that the peer has not reported as received.
    pub open spec fn retransmission(self) -> Option<OutgoingView> {
        let i = oldest_unsacked(self.sent, 0);
        if i < self.sent.len() {
            let s = self.sent[i];
            Some(
                OutgoingView {
                    start: s.start,
                    payload: self.data.subrange(s.start - self.una, s.start - self.una + s.len),
                    fin: s.fin,
                },
            )
        } else {
            None
        }
    }

    /// The buffer after the retransmission timer fired at the time `now`: no segment in
    /// flight is used to measure a round trip any more, and the one that is sent again has
    /// `now` as the time it was sent.
    pub open spec fn timed_out(self, now: u64) -> SendBufferView {
        let pick = oldest_unsacked(self.sent, 0);
        SendBufferView {
            sent: Seq::new(
                self.sent.len(),
                |i: int|
                    SentSegment {
                        retransmitted: true,
                        sent_at: if i == pick {
                            now
                        } else {
                            self.sent[i].sent_at
                        },
                        ..self.sent[i]
                    },
            ),
            ..self
        }
    }

    /// The buffer after the window has become `wnd` offsets from `una`: segments that reach
    /// behind the window count as not sent.
    pub open spec fn shrunk_to(self, wnd: int) -> SendBufferView {
        let kept = kept_within(self.sent, self.una + wnd);
        SendBufferView {
            sent: kept,
            nxt: if kept.len() == 0 {
                self.una
            } else {
                kept[kept.len() - 1].end() as u64
            },
            ..self
        }
    }

    /// The buffer holds the end of `stream`, which is all that the application has handed
    /// over so far.
    pub open spec fn agrees_with(self, stream: Seq<u8>) -> bool {
        &&& self.end - self.origin == stream.len()
        &&& self.data == stream.subrange(self.data_start() - self.origin, stream.len() as int)
    }
}

/// What `append` gives for a buffer, `avail` offered bytes and a wish for at most `max_len`:
/// the stream is closed once the FIN is queued, the buffer is full when it has no room, and
/// otherwise it takes what fits.
pub open spec fn append_result(b: SendBufferView, avail: int, max_len: int) -> Result<
    usize,
    SendError,
> {
    if b.fin_queued {
        Err(SendError::StreamClosed)
    } else if b.room() == 0 {
        Err(SendError::Full)
    } else {
        Ok(b.accepts(avail, max_len) as usize)
    }
}

/// Segments that tile what lies between `una` and `nxt` still do so from `ack` on after
/// they were trimmed to `ack`.
pub proof fn lemma_trimmed_tiles(sent: Seq<SentSegment>, una: int, nxt: int, end: int, ack: u64)
    requires
        tiles(sent, una, nxt, end),
        una <= ack <= nxt,
    ensures
        tiles(trimmed(sent, ack), ack as int, nxt, end),
    decreases sent.len(),
{
    if sent.len() > 0 {
        let tail = sent.drop_first();
        if sent[0].end() <= ack {
            assert forall|i: int| 0 <= i < tail.len() implies {
                let s = #[trigger] tail[i];
                s.space() > 0 && s.start + s.len <= end && (s.fin ==> s.start + s.len == end)
            } by {
                assert(tail[i] == sent[i + 1]);
            }
            assert forall|i: int| 0 <= i < tail.len() - 1 implies (#[trigger] tail[i]).end()
                == tail[i + 1].start by {
                assert(tail[i] == sent[i + 1]);
                assert(tail[i + 1] == sent[i + 2]);
            }
            if tail.len() > 0 {
                assert(tail[0] == sent[1]);
                assert(tail[tail.len() - 1] == sent[sent.len() - 1]);
            }
            lemma_trimmed_tiles(tail, sent[0].end(), nxt, end, ack);
        } else if sent[0].start < ack {
            let cut = seq![sent[0].cut_to(ack)] + tail;
            assert forall|i: int| 0 <= i < cut.len() implies {
                let s = #[trigger] cut[i];
                s.space() > 0 && s.start + s.len <= end && (s.fin ==> s.start + s.len == end)
            } by {
                if i > 0 {
                    assert(cut[i] == sent[i]);
                }
            }
            assert forall|i: int| 0 <= i < cut.len() - 1 implies (#[trigger] cut[i]).end() == cut[i
                + 1].start by {
                assert(cut[i + 1] == sent[i + 1]);
                if i > 0 {
                    assert(cut[i] == sent[i]);
                }
            }
            if cut.len() > 1 {
                assert(cut[cut.len() - 1] == sent[sent.len() - 1]);
            }
        }
    }
}

/// Segments that tile what lies between `una` and `nxt` still tile what is left of it when
/// those that reach behind `right` are taken off the end.
pub proof fn lemma_kept_tiles(sent: Seq<SentSegment>, una: int, nxt: int, end: int, right: int)
    requires
        tiles(sent, una, nxt, end),
        una <= right,
    ensures
        ({
            let kept = kept_within(sent, right);
            let at = if kept.len() == 0 {
                una
            } else {
                kept[kept.len() - 1].end()
            };
            &&& tiles(kept, una, at, end)
            &&& una <= at <= nxt
            &&& at <= right
            &&& kept.len() <= sent.len()
            &&& kept == sent.take(kept.len() as int)
        }),
    decreases sent.len(),
{
    lemma_tiles_ordered(sent, una, nxt, end, sent.len() as int - 1);
    if sent.len() > 0 && sent[sent.len() - 1].end() > right {
        let init = sent.drop_last();
        let at = if init.len() == 0 {
            una
        } else {
            init[init.len() - 1].end()
        };
        assert forall|i: int| 0 <= i < init.len() implies {
            let s = #[trigger] init[i];
            s.space() > 0 && s.start + s.len <= end && (s.fin ==> s.start + s.len == end)
        } by {
            assert(init[i] == sent[i]);
        }
        assert forall|i: int| 0 <= i < init.len() - 1 implies (#[trigger] init[i]).end() == init[i
            + 1].start by {
            assert(init[i] == sent[i]);
            assert(init[i + 1] == sent[i + 1]);
        }
        if init.len() > 0 {
            assert(init[0] == sent[0]);
            assert(init[init.len() - 1] == sent[sent.len() - 2]);
        }
        lemma_kept_tiles(init, una, at, end, right);
        let kept = kept_within(init, right);
        assert(kept =~= sent.take(kept.len() as int));
    } else {
        assert(sent =~= sent.take(sent.len() as int));
    }
}

/// In segments that tile, the segment at `i` starts at or behind `una` and ends at or before
/// `nxt`.
pub proof fn lemma_tiles_ordered(sent: Seq<SentSegment>, una: int, nxt: int, end: int, i: int)
    requires
        tiles(sent, una, nxt, end),
    ensures
        0 <= i < sent.len() ==> una <= sent[i].start && sent[i].end() <= nxt,
        una <= nxt,
    decreases sent.len(),
{
    if sent.len() > 0 {
        let init = sent.drop_last();
        let at = sent[sent.len() - 1].start as int;
        assert forall|k: int| 0 <= k < init.len() implies {
            let s = #[trigger] init[k];
            s.space() > 0 && s.start + s.len <= end && (s.fin ==> s.start + s.len == end)
        } by {
            assert(init[k] == sent[k]);
        }
        assert forall|k: int| 0 <= k < init.len() - 1 implies (#[trigger] init[k]).end() == init[k
            + 1].start by {
            assert(init[k] == sent[k]);
            assert(init[k + 1] == sent[k + 1]);
        }
        if init.len() > 0 {
            assert(init[0] == sent[0]);
            assert(init[init.len() - 1] == sent[sent.len() - 2]);
            assert(sent[sent.len() - 2].end() == sent[sent.len() - 1].start);
        }
        lemma_tiles_ordered(init, una, at, end, i);
        if 0 <= i < init.len() {
            assert(init[i] == sent[i]);
        }
    }
}

/// The index that [`oldest_unsacked`] gives lies between `from` and the number of segments.
pub proof fn lemma_oldest_bounds(sent: Seq<SentSegment>, from: int)
    requires
        0 <= from,
    ensures
        from <= oldest_unsacked(sent, from) || oldest_unsacked(sent, from) == sent.len(),
        0 <= oldest_unsacked(sent, from) <= sent.len() || from > sent.len(),
    decreases sent.len() - from,
{
    if from < sent.len() && sent[from].sacked {
        lemma_oldest_bounds(sent, from + 1);
    }
}

/// Marks the segments that lie within the offsets from `lo` to `hi` as reported.
fn mark_sacked(sent: &mut Vec<SentSegment>, lo: u64, hi: u64)
    ensures
        final(sent)@ == Seq::new(
            old(sent)@.len(),
            |i: int|
                if lo <= old(sent)@[i].start && old(sent)@[i].end() <= hi {
                    SentSegment { sacked: true, ..old(sent)@[i] }
                } else {
                    old(sent)@[i]
                },
        ),
{
    let ghost sent0 = sent@;
    let mut i: usize = 0;
    while i < sent.len()
        invariant
            sent@.len() == sent0.len(),
            i <= sent0.len(),
            forall|k: int|
                0 <= k < i ==> sent@[k] == (if lo <= sent0[k].start && sent0[k].end() <= hi {
                    SentSegment { sacked: true, ..sent0[k] }
                } else {
                    sent0[k]
                }),
            forall|k: int| i <= k < sent0.len() ==> sent@[k] == sent0[k],
        decreases sent0.len() - i,
    {
        let s = sent[i];
        if lo <= s.start && s.end_offset() <= hi as u128 {
            sent.set(i, SentSegment { sacked: true, ..s });
        }
        i = i + 1;
    }
    assert(sent@ =~= Seq::new(
        sent0.len(),
        |i: int|
            if lo <= sent0[i].start && sent0[i].end() <= hi {
                SentSegment { sacked: true, ..sent0[i] }
            } else {
                sent0[i]
            },
    ));
}

/// Marks every segment as retransmitted, and the one at `pick` as sent at the time `now`.
fn mark_retransmitted(sent: &mut Vec<SentSegment>, pick: usize, now: u64)
    ensures
        final(sent)@ == Seq::new(
            old(sent)@.len(),
            |i: int|
                SentSegment {
                    retransmitted: true,
                    sent_at: if i == pick {
                        now
                    } else {
                        old(sent)@[i].sent_at
                    },
                    ..old(sent)@[i]
                },
        ),
{
    let ghost sent0 = sent@;
    let mut i: usize = 0;
    while i < sent.len()
        invariant
            sent@.len() == sent0.len(),
            i <= sent0.len(),
            forall|k: int|
                0 <= k < i ==> sent@[k] == (SentSegment {
                    retransmitted: true,
                    sent_at: if k == pick {
                        now
                    } else {
                        sent0[k].sent_at
                    },
                    ..sent0[k]
                }),
            forall|k: int| i <= k < sent0.len() ==> sent@[k] == sent0[k],
        decreases sent0.len() - i,
    {
        let s = sent[i];
        sent.set(
            i,
            SentSegment {
                retransmitted: true,
                sent_at: if i == pick {
                    now
                } else {
                    s.sent_at
                },
                ..s
            },
        );
        i = i + 1;
    }
    assert(sent@ =~= Seq::new(
        sent0.len(),
        |i: int|
            SentSegment {
                retransmitted: true,
                sent_at: if i == pick {
                    now
                } else {
                    sent0[i].sent_at
                },
                ..sent0[i]
            },
    ));
}

/// The views of a sequence of segments for the wire.
pub open spec fn outgoing_views(s: Seq<Outgoing>) -> Seq<OutgoingView> {
    Seq::new(s.len(), |i: int| s[i]@)
}

/// The send buffer of one connection.
#[derive(Debug)]
pub struct SendBuffer {
    origin: u64,
    una: u64,
    nxt: u64,
    end: u64,
    data: Vec<u8>,
    capacity: usize,
    fin_queued: bool,
    sent: Vec<SentSegment>,
}

impl View for SendBuffer {
    type V = SendBufferView;

    closed spec fn view(&self) -> SendBufferView {
        SendBufferView {
            origin: self.origin,
            una: self.una,
            nxt: self.nxt,
            end: self.end,
            data: self.data@,
            capacity: self.capacity,
            fin_queued: self.fin_queued,
            sent: self.sent@,
        }
    }
}

impl SendBuffer {
    pub open spec fn wf(&self) -> bool {
        self@.wf()
    }

    /// An empty buffer for a stream whose first byte has the offset `origin`.
    pub fn new(origin: u64, capacity: usize) -> (r: SendBuffer)
        requires
            origin <= MAX_OFFSET,
            capacity <= MAX_WINDOW,
        ensures
            r@ == SendBufferView::empty(origin, capacity),
            r.wf(),
    {
        SendBuffer {
            origin,
            una: origin,
            nxt: origin,
            end: origin,
            data: Vec::new(),
            capacity,
            fin_queued: false,
            sent: Vec::new(),
        }
    }

    /// The oldest offset that the peer has not acknowledged.
    pub fn una(&self) -> (r: u64)
        ensures
            r == self@.una,
    {
        self.una
    }

    /// The next offset to send.
    pub fn nxt(&self) -> (r: u64)
        ensures
            r == self@.nxt,
    {
        self.nxt
    }

    /// The offset behind the last byte that the application has handed over.
    pub fn end(&self) -> (r: u64)
        ensures
            r == self@.end,
    {
        self.end
    }

    /// The number of offsets in flight.
    pub fn in_flight(&self) -> (r: u64)
        requires
            self.wf(),
        ensures
            r == self@.in_flight(),
    {
        self.nxt - self.una
    }

    /// The number of bytes that the buffer holds.
    pub fn buffered(&self) -> (r: usize)
        ensures
            r == self@.data.len(),
    {
        self.data.len()
    }

    /// The number of bytes that the buffer can still take.
    pub fn room(&self) -> (r: usize)
        requires
            self.wf(),
        ensures
            r == self@.room(),
    {
        let free: usize = self.capacity - self.data.len();
        let left: u64 = MAX_OFFSET - self.end;
        if (free as u64) < left {
            free
        } else {
            left as usize
        }
    }

    /// The application has closed the stream.
    pub fn fin_queued(&self) -> (r: bool)
        ensures
            r == self@.fin_queued,
    {
        self.fin_queued
    }

    /// The FIN has been sent.
    pub fn has_fin_sent(&self) -> (r: bool)
        requires
            self.wf(),
        ensures
            r == self@.fin_sent(),
    {
        self.fin_queued && self.nxt == self.end + 1
    }

    /// Nothing is left to send or to be acknowledged but the FIN, which is queued.
    pub fn only_fin_left(&self) -> (r: bool)
        ensures
            r == self@.only_fin_left(),
    {
        self.fin_queued && self.data.len() == 0
    }

    /// The FIN has been acknowledged.
    pub fn fin_acked(&self) -> (r: bool)
        requires
            self.wf(),
        ensures
            r == self@.fin_acked(),
    {
        self.fin_queued && self.una == self.end + 1
    }

    /// Takes up to `max_len` bytes from the front of `bytes` and gives the number taken.
    pub fn append(&mut self, bytes: &[u8], max_len: usize) -> (r: Result<usize, SendError>)
        requires
            old(self).wf(),
        ensures
            r == append_result(old(self)@, bytes@.len() as int, max_len as int),
            final(self)@ == (match r {
                Ok(n) => old(self)@.appended(bytes@.take(n as int)),
                Err(_) => old(self)@,
            }),
            final(self).wf(),
    {
        if self.fin_queued {
            return Err(SendError::StreamClosed);
        }
        let room: usize = self.room();
        if room == 0 {
            return Err(SendError::Full);
        }
        let wanted: usize = if bytes.len() < max_len {
            bytes.len()
        } else {
            max_len
        };
        let n: usize = if wanted < room {
            wanted
        } else {
            room
        };
        append_part(&mut self.data, bytes, 0, n);
        self.end = self.end + n as u64;
        assert(bytes@.subrange(0, n as int) =~= bytes@.take(n as int));
        proof {
            let after = self@;
            let before = old(self)@;
            assert forall|i: int| 0 <= i < after.sent.len() implies {
                let s = #[trigger] after.sent[i];
                s.space() > 0 && s.start + s.len <= after.end && (s.fin ==> s.start + s.len
                    == after.end)
            } by {
                assert(before.sent[i] == after.sent[i]);
            }
        }
        Ok(n)
    }

    /// Closes the stream: the FIN follows the last byte.
    pub fn queue_fin(&mut self)
        requires
            old(self).wf(),
        ensures
            final(self)@ == (SendBufferView { fin_queued: true, ..old(self)@ }),
            final(self).wf(),
    {
        self.fin_queued = true;
    }

    /// Executable form of [`SendBufferView::sendable`].
    pub fn sendable(&self, wnd: u32) -> (r: bool)
        requires
            self.wf(),
        ensures
            r == self@.sendable(wnd as int),
    {
        let right: u64 = self.una + wnd as u64;
        (self.nxt < self.end && self.nxt < right) || (self.fin_queued && self.nxt == self.end
            && self.end < right)
    }

    /// Gives the next new segment for a window of `wnd` offsets from `una()` and segments of
    /// at most `mss` bytes, and records it as sent at the time `now`. Gives nothing if
    /// nothing new can be sent.
    pub fn next_segment(&mut self, wnd: u32, mss: usize, now: u64) -> (r: Option<Outgoing>)
        requires
            old(self).wf(),
        ensures
            old(self)@.sendable(wnd as int) && mss >= 1 ==> r is Some && r->0@ == old(
                self,
            )@.next_segment(wnd as int, mss as int) && final(self)@ == old(self)@.transmitted(
                wnd as int,
                mss as int,
                now,
            ),
            !old(self)@.sendable(wnd as int) || mss == 0 ==> r is None && final(self)@ == old(
                self,
            )@,
            final(self).wf(),
    {
        if mss == 0 || !self.sendable(wnd) {
            return None;
        }
        let right: u64 = self.una + wnd as u64;
        let left: u64 = self.end - self.nxt;
        let open: u64 = right - self.nxt;
        let a: u64 = if left < open {
            left
        } else {
            open
        };
        let len: u64 = if a < mss as u64 {
            a
        } else {
            mss as u64
        };
        let fin: bool = self.fin_queued && self.nxt + len == self.end && self.end < right;
        let at: usize = (self.nxt - self.una) as usize;
        let payload = copy_part(self.data.as_slice(), at, at + len as usize);
        let record = SentSegment {
            start: self.nxt,
            len,
            fin,
            sent_at: now,
            retransmitted: false,
            sacked: false,
        };
        let start: u64 = self.nxt;
        self.sent.push(record);
        self.nxt = self.nxt + len + if fin {
            1
        } else {
            0
        };
        proof {
            let before = old(self)@;
            let after = self@;
            assert(after == before.transmitted(wnd as int, mss as int, now));
            assert forall|i: int| 0 <= i < after.sent.len() - 1 implies (#[trigger] after.sent[i]).end()
                == after.sent[i + 1].start by {
                if i < before.sent.len() - 1 {
                    assert(before.sent[i] == after.sent[i]);
                    assert(before.sent[i + 1] == after.sent[i + 1]);
                } else {
                    assert(before.sent[i] == after.sent[i]);
                }
            }
            assert forall|i: int| 0 <= i < after.sent.len() implies {
                let s = #[trigger] after.sent[i];
                s.space() > 0 && s.start + s.len <= after.end && (s.fin ==> s.start + s.len
                    == after.end)
            } by {
                if i < before.sent.len() {
                    assert(before.sent[i] == after.sent[i]);
                }
            }
            if before.sent.len() > 0 {
                assert(after.sent[0] == before.sent[0]);
            }
        }
        Some(Outgoing { start, payload, fin })
    }

    /// Gives every new segment that a window of `wnd` offsets from `una()` lets through, in
    /// segments of at most `mss` bytes, and records them as sent at the time `now`.
    pub fn next_transmittable(&mut self, wnd: u32, mss: usize, now: u64) -> (r: Vec<Outgoing>)
        requires
            old(self).wf(),
        ensures
            final(self)@ == old(self)@.all_transmitted(wnd as int, mss as int, now).0,
            outgoing_views(r@) == old(self)@.all_transmitted(wnd as int, mss as int, now).1,
            final(self).wf(),
            mss >= 1 ==> !final(self)@.sendable(wnd as int),
    {
        let mut out: Vec<Outgoing> = Vec::new();
        assert(outgoing_views(out@) =~= Seq::<OutgoingView>::empty());
        loop
            invariant
                self.wf(),
                old(self)@.all_transmitted(wnd as int, mss as int, now) == ({
                    let (b, rest) = self@.all_transmitted(wnd as int, mss as int, now);
                    (b, outgoing_views(out@) + rest)
                }),
            ensures
                self@ == old(self)@.all_transmitted(wnd as int, mss as int, now).0,
                outgoing_views(out@) == old(self)@.all_transmitted(wnd as int, mss as int, now).1,
                self.wf(),
                mss >= 1 ==> !self@.sendable(wnd as int),
            decreases self@.last() - self@.nxt,
        {
            let ghost before = self@;
            let ghost sent = outgoing_views(out@);
            match self.next_segment(wnd, mss, now) {
                Some(o) => {
                    let ghost rest = self@.all_transmitted(wnd as int, mss as int, now).1;
                    out.push(o);
                    assert(outgoing_views(out@) =~= sent.push(o@));
                    assert(sent.push(o@) + rest =~= sent + (seq![o@] + rest));
                },
                None => {
                    assert(sent + Seq::<OutgoingView>::empty() =~= sent);
                    break ;
                },
            }
        }
        out
    }

    /// Takes in an acknowledgment of everything before `ack`. Gives the time at which the
    /// round trip started that the acknowledgment completes, if it completes one that can be
    /// measured.
    pub fn on_cumulative_ack(&mut self, ack: u64) -> (r: Option<u64>)
        requires
            old(self).wf(),
        ensures
            final(self)@ == old(self)@.acked(ack),
            r == old(self)@.round_trip_start(ack),
            final(self).wf(),
    {
        if !(self.una < ack && ack <= self.nxt) {
            return None;
        }
        let upto: u64 = if ack < self.end {
            ack
        } else {
            self.end
        };
        let from: u64 = if self.una < self.end {
            self.una
        } else {
            self.end
        };
        drop_front(&mut self.data, (upto - from) as usize);
        let ghost sent0 = self.sent@;
        let mut k: usize = 0;
        let mut sample: Option<u64> = None;
        assert(sent0.skip(0) =~= sent0);
        while k < self.sent.len() && self.sent[k].end_offset() <= ack as u128
            invariant
                self.sent@ == sent0,
                k <= sent0.len(),
                tiles(sent0, old(self)@.una as int, old(self)@.nxt as int, old(self)@.end as int),
                old(self)@.nxt <= MAX_OFFSET + 1,
                trimmed(sent0, ack) == trimmed(sent0.skip(k as int), ack),
                sample_for(sent0, ack) == (match sample {
                    Some(x) => Some(x),
                    None => sample_for(sent0.skip(k as int), ack),
                }),
            decreases sent0.len() - k,
        {
            proof {
                lemma_tiles_ordered(
                    sent0,
                    old(self)@.una as int,
                    old(self)@.nxt as int,
                    old(self)@.end as int,
                    k as int + 1,
                );
                assert(sent0.skip(k as int)[0] == sent0[k as int]);
                assert(sent0.skip(k as int).drop_first() =~= sent0.skip(k as int + 1));
            }
            if sample.is_none() && !self.sent[k].retransmitted {
                sample = Some(self.sent[k].sent_at);
            }
            k = k + 1;
            proof {
                lemma_tiles_ordered(
                    sent0,
                    old(self)@.una as int,
                    old(self)@.nxt as int,
                    old(self)@.end as int,
                    k as int,
                );
            }
        }
        proof {
            if k < sent0.len() {
                assert(sent0.skip(k as int)[0] == sent0[k as int]);
            }
            assert(sample_for(sent0.skip(k as int), ack) is None);
        }
        let mut rest: Vec<SentSegment> = self.sent.split_off(k);
        assert(rest@ =~= sent0.skip(k as int));
        if rest.len() > 0 && rest[0].start < ack {
            let first = rest[0];
            let cut = SentSegment { start: ack, len: first.len - (ack - first.start), ..first };
            rest.set(0, cut);
            assert(rest@ =~= seq![first.cut_to(ack)] + sent0.skip(k as int).drop_first());
        }
        self.sent = rest;
        self.una = ack;
        proof {
            lemma_trimmed_tiles(
                sent0,
                old(self)@.una as int,
                old(self)@.nxt as int,
                old(self)@.end as int,
                ack,
            );
            assert(old(self)@.data.skip(upto - from) == self@.data);
        }
        sample
    }

    /// Takes in the peer's report that the offsets from `lo` to `hi` have arrived out of
    /// order.
    pub fn on_sack(&mut self, lo: u64, hi: u64)
        requires
            old(self).wf(),
        ensures
            final(self)@ == old(self)@.sacked(lo, hi),
            final(self).wf(),
    {
        let ghost sent0 = self.sent@;
        mark_sacked(&mut self.sent, lo, hi);
        proof {
            let after = self@;
            assert(after.sent =~= old(self)@.sacked(lo, hi).sent);
            assert forall|k: int| 0 <= k < after.sent.len() - 1 implies (#[trigger] after.sent[k]).end()
                == after.sent[k + 1].start by {
                assert(sent0[k].end() == sent0[k + 1].start);
            }
            assert forall|k: int| 0 <= k < after.sent.len() implies {
                let s = #[trigger] after.sent[k];
                s.space() > 0 && s.start + s.len <= after.end && (s.fin ==> s.start + s.len
                    == after.end)
            } by {
                assert(sent0[k].space() > 0);
            }
        }
    }

    /// Executable form of [`oldest_unsacked`] from the first segment on.
    fn pick_oldest(&self) -> (i: usize)
        ensures
            i == oldest_unsacked(self@.sent, 0),
            i <= self@.sent.len(),
    {
        let mut i: usize = 0;
        while i < self.sent.len() && self.sent[i].sacked
            invariant
                i <= self.sent.len(),
                oldest_unsacked(self@.sent, 0) == oldest_unsacked(self@.sent, i as int),
            decreases self.sent.len() - i,
        {
            i = i + 1;
        }
        i
    }

    /// Takes in that the retransmission timer fired at the time `now`, and gives the segment
    /// to send again, if there is one.
    pub fn on_timeout(&mut self, now: u64) -> (r: Option<Outgoing>)
        requires
            old(self).wf(),
        ensures
            match r {
                Some(o) => old(self)@.retransmission() == Some(o@),
                None => old(self)@.retransmission() is None,
            },
            final(self)@ == old(self)@.timed_out(now),
            final(self).wf(),
    {
        let pick: usize = self.pick_oldest();
        let ghost sent0 = self.sent@;
        let ghost goal = old(self)@.timed_out(now).sent;
        let r = if pick < self.sent.len() {
            let s = self.sent[pick];
            proof {
                lemma_tiles_ordered(
                    sent0,
                    old(self)@.una as int,
                    old(self)@.nxt as int,
                    old(self)@.end as int,
                    pick as int,
                );
            }
            let at: usize = (s.start - self.una) as usize;
            let payload = copy_part(self.data.as_slice(), at, at + s.len as usize);
            Some(Outgoing { start: s.start, payload, fin: s.fin })
        } else {
            None
        };
        mark_retransmitted(&mut self.sent, pick, now);
        assert(self.sent@ =~= goal);
        proof {
            let after = self@;
            assert forall|k: int| 0 <= k < after.sent.len() - 1 implies (#[trigger] after.sent[k]).end()
                == after.sent[k + 1].start by {
                assert(sent0[k].end() == sent0[k + 1].start);
            }
            assert forall|k: int| 0 <= k < after.sent.len() implies {
                let s = #[trigger] after.sent[k];
                s.space() > 0 && s.start + s.len <= after.end && (s.fin ==> s.start + s.len
                    == after.end)
            } by {
                assert(sent0[k].space() > 0);
            }
        }
        r
    }

    /// Takes in that the window is now `wnd` offsets from `una()`.
    pub fn shrink_to_window(&mut self, wnd: u32)
        requires
            old(self).wf(),
        ensures
            final(self)@ == old(self)@.shrunk_to(wnd as int),
            final(self).wf(),
            final(self)@.nxt <= final(self)@.una + wnd,
    {
        let right: u64 = self.una + wnd as u64;
        let ghost sent0 = self.sent@;
        proof {
            lemma_kept_tiles(
                sent0,
                self.una as int,
                self.nxt as int,
                self.end as int,
                right as int,
            );
        }
        while self.sent.len() > 0 && self.sent[self.sent.len() - 1].end_offset() > right as u128
            invariant
                old(self).wf(),
                sent0 == old(self)@.sent,
                self.sent@ == sent0.take(self.sent@.len() as int),
                self.sent@.len() <= sent0.len(),
                kept_within(sent0, right as int) == kept_within(self.sent@, right as int),
                self.origin == old(self).origin,
                self.una == old(self).una,
                self.nxt == old(self).nxt,
                self.end == old(self).end,
                self.data == old(self).data,
                self.capacity == old(self).capacity,
                self.fin_queued == old(self).fin_queued,
            decreases self.sent@.len(),
        {
            proof {
                lemma_tiles_ordered(
                    sent0,
                    old(self)@.una as int,
                    old(self)@.nxt as int,
                    old(self)@.end as int,
                    self.sent@.len() as int - 1,
                );
            }
            let ghost before = self.sent@;
            self.sent.pop();
            assert(self.sent@ =~= before.drop_last());
            assert(self.sent@ =~= sent0.take(self.sent@.len() as int));
        }
        proof {
            if self.sent@.len() > 0 {
                lemma_tiles_ordered(
                    sent0,
                    old(self)@.una as int,
                    old(self)@.nxt as int,
                    old(self)@.end as int,
                    self.sent@.len() as int - 1,
                );
            }
        }
        if self.sent.len() == 0 {
            self.nxt = self.una;
        } else {
            let s = self.sent[self.sent.len() - 1];
            self.nxt = s.start + s.len + if s.fin {
                1
            } else {
                0
            };
        }
    }
}

/// A well-formed buffer is well-formed after it has taken bytes that it has room for, and
/// after the FIN was queued.
pub proof fn lemma_appended_wf(b: SendBufferView, bytes: Seq<u8>)
    requires
        b.wf(),
    ensures
        !b.fin_queued && bytes.len() <= b.room() ==> b.appended(bytes).wf(),
        (SendBufferView { fin_queued: true, ..b }).wf(),
{
    if !b.fin_queued && bytes.len() <= b.room() {
        let after = b.appended(bytes);
        assert forall|i: int| 0 <= i < after.sent.len() implies {
            let s = #[trigger] after.sent[i];
            s.space() > 0 && s.start + s.len <= after.end && (s.fin ==> s.start + s.len
                == after.end)
        } by {
            assert(b.sent[i] == after.sent[i]);
            lemma_fin_is_last(b, i);
        }
    }
}

/// A well-formed buffer is well-formed after the next new segment was sent, and what it
/// has sent lies within the window.
pub proof fn lemma_transmitted_wf(b: SendBufferView, wnd: int, mss: int, now: u64)
    requires
        b.wf(),
        b.sendable(wnd),
        mss >= 1,
        b.nxt <= b.una + wnd,
    ensures
        b.transmitted(wnd, mss, now).wf(),
        b.transmitted(wnd, mss, now).nxt <= b.una + wnd,
{
    let after = b.transmitted(wnd, mss, now);
    assert forall|i: int| 0 <= i < after.sent.len() - 1 implies (#[trigger] after.sent[i]).end()
        == after.sent[i + 1].start by {
        if i < b.sent.len() - 1 {
            assert(b.sent[i] == after.sent[i]);
            assert(b.sent[i + 1] == after.sent[i + 1]);
        } else {
            assert(b.sent[i] == after.sent[i]);
        }
    }
    assert forall|i: int| 0 <= i < after.sent.len() implies {
        let s = #[trigger] after.sent[i];
        s.space() > 0 && s.start + s.len <= after.end && (s.fin ==> s.start + s.len == after.end)
    } by {
        if i < b.sent.len() {
            assert(b.sent[i] == after.sent[i]);
        }
    }
    if b.sent.len() > 0 {
        assert(after.sent[0] == b.sent[0]);
    }
}

/// A well-formed buffer is well-formed after a report of the peer and after a timeout.
pub proof fn lemma_marked_wf(b: SendBufferView, lo: u64, hi: u64, now: u64)
    requires
        b.wf(),
    ensures
        b.sacked(lo, hi).wf(),
        b.timed_out(now).wf(),
{
    let marked = b.sacked(lo, hi);
    assert forall|k: int| 0 <= k < marked.sent.len() - 1 implies (#[trigger] marked.sent[k]).end()
        == marked.sent[k + 1].start by {
        assert(b.sent[k].end() == b.sent[k + 1].start);
    }
    assert forall|k: int| 0 <= k < marked.sent.len() implies {
        let s = #[trigger] marked.sent[k];
        s.space() > 0 && s.start + s.len <= marked.end && (s.fin ==> s.start + s.len
            == marked.end)
    } by {
        assert(b.sent[k].space() > 0);
    }
    let late = b.timed_out(now);
    assert forall|k: int| 0 <= k < late.sent.len() - 1 implies (#[trigger] late.sent[k]).end()
        == late.sent[k + 1].start by {
        assert(b.sent[k].end() == b.sent[k + 1].start);
    }
    assert forall|k: int| 0 <= k < late.sent.len() implies {
        let s = #[trigger] late.sent[k];
        s.space() > 0 && s.start + s.len <= late.end && (s.fin ==> s.start + s.len == late.end)
    } by {
        assert(b.sent[k].space() > 0);
    }
}

/// While the FIN is not queued no segment in flight carries it.
pub proof fn lemma_fin_is_last(b: SendBufferView, i: int)
    requires
        b.wf(),
        0 <= i < b.sent.len(),
    ensures
        b.sent[i].fin ==> b.fin_queued,
{
    lemma_tiles_ordered(b.sent, b.una as int, b.nxt as int, b.end as int, i);
}

/// A well-formed buffer is well-formed after an acknowledgment.
pub proof fn lemma_acked_wf(b: SendBufferView, ack: u64)
    requires
        b.wf(),
    ensures
        b.acked(ack).wf(),
{
    if b.acks_new(ack) {
        lemma_trimmed_tiles(b.sent, b.una as int, b.nxt as int, b.end as int, ack);
    }
}

/// A well-formed buffer is well-formed after the window has changed, and what it has sent
/// lies within the new window. If what it had sent lay within the new window already,
/// nothing changes.
pub proof fn lemma_shrunk_wf(b: SendBufferView, wnd: int)
    requires
        b.wf(),
        0 <= wnd,
    ensures
        b.shrunk_to(wnd).wf(),
        b.shrunk_to(wnd).nxt <= b.una + wnd,
        b.nxt <= b.una + wnd ==> b.shrunk_to(wnd) == b,
{
    lemma_kept_tiles(b.sent, b.una as int, b.nxt as int, b.end as int, b.una + wnd);
    lemma_tiles_ordered(b.sent, b.una as int, b.nxt as int, b.end as int, 0);
}

/// A buffer that holds the end of a stream holds the end of the longer stream after more
/// bytes were appended.
pub proof fn lemma_append_agrees(b: SendBufferView, bytes: Seq<u8>, stream: Seq<u8>)
    requires
        b.wf(),
        b.agrees_with(stream),
        !b.fin_queued,
        bytes.len() <= b.room(),
    ensures
        b.appended(bytes).agrees_with(stream + bytes),
{
    let after = b.appended(bytes);
    let longer = stream + bytes;
    assert(after.data =~= longer.subrange(after.data_start() - after.origin, longer.len() as int));
}

/// A buffer that holds the end of a stream still does after an acknowledgment.
pub proof fn lemma_ack_agrees(b: SendBufferView, ack: u64, stream: Seq<u8>)
    requires
        b.wf(),
        b.agrees_with(stream),
    ensures
        b.acked(ack).agrees_with(stream),
{
    let after = b.acked(ack);
    assert(after.data =~= stream.subrange(after.data_start() - after.origin, stream.len() as int));
}

/// The bytes of a new segment are the bytes that the stream has at the segment's place.
pub proof fn lemma_segment_agrees(b: SendBufferView, wnd: int, mss: int, stream: Seq<u8>)
    requires
        b.wf(),
        b.agrees_with(stream),
        b.sendable(wnd),
        mss >= 1,
    ensures
        ({
            let o = b.next_segment(wnd, mss);
            &&& b.origin <= o.start
            &&& o.start - b.origin + o.payload.len() <= stream.len()
            &&& o.payload == stream.subrange(
                o.start - b.origin,
                o.start - b.origin + o.payload.len(),
            )
            &&& o.fin ==> b.fin_queued && o.start - b.origin + o.payload.len() == stream.len()
        }),
{
    let o = b.next_segment(wnd, mss);
    assert(o.payload =~= stream.subrange(o.start - b.origin, o.start - b.origin + o.payload.len()));
}

/// The bytes of a retransmitted segment are the bytes that the stream has at the segment's
/// place.
pub proof fn lemma_retransmission_agrees(b: SendBufferView, stream: Seq<u8>)
    requires
        b.wf(),
        b.agrees_with(stream),
        b.retransmission() is Some,
    ensures
        ({
            let o = b.retransmission()->0;
            &&& b.origin <= o.start
            &&& o.start - b.origin + o.payload.len() <= stream.len()
            &&& o.payload == stream.subrange(
                o.start - b.origin,
                o.start - b.origin + o.payload.len(),
            )
            &&& o.fin ==> b.fin_queued && o.start - b.origin + o.payload.len() == stream.len()
        }),
{
    let i = oldest_unsacked(b.sent, 0);
    lemma_oldest_bounds(b.sent, 0);
    lemma_tiles_ordered(b.sent, b.una as int, b.nxt as int, b.end as int, i);
    let o = b.retransmission()->0;
    assert(o.payload =~= stream.subrange(o.start - b.origin, o.start - b.origin + o.payload.len()));
    let s = b.sent[i];
    assert(s.fin ==> s.start + s.len == b.end);
}

} // verus!
