//! Why bytes that are sent over a connection arrive: the transfer of a stream from an
//! established connection to its peer when no segment is lost or overtaken.

use vstd::prelude::*;
use crate::connection::{
    ConnectionView,
    SegmentView,
    StateTag,
    MSS,
    RECV_CAPACITY,
    WINDOW_SHIFT,
};
use crate::flags::TcpFlags;
use crate::header::TcpHeader;
use crate::recv_buffer::{absorb, BlockView, RecvBufferView};
use crate::seq::seq_add;

verus! {

/// The connection `r` is in step with its peer `c`, which sends `stream` to it: both are
/// established, each knows the other's initial sequence number, `r` has taken in
/// everything that `c` has sent, in order and without gap, the send window of `c` does not
/// reach behind the receive window of `r`, `c` has no segment waiting for the wire and has
/// not closed, and `r` has no bytes of its own to send or under way to `c`.
pub open spec fn in_step(c: ConnectionView, r: ConnectionView, stream: Seq<u8>) -> bool {
    &&& c.wf()
    &&& r.wf()
    &&& c.tcb.state == StateTag::Established
    &&& r.tcb.state == StateTag::Established
    &&& r.tcb.local == c.tcb.remote
    &&& r.tcb.remote == c.tcb.local
    &&& r.tcb.irs == c.tcb.iss
    &&& c.tcb.irs == r.tcb.iss
    &&& c.snd.agrees_with(stream)
    &&& r.rcv.agrees_with(stream)
    &&& r.rcv.nxt == c.snd.nxt
    &&& r.rcv.blocks.len() == 0
    &&& r.rcv.fin is None
    &&& c.snd.una + c.tcb.snd_wnd <= r.rcv.nxt + r.rcv.window()
    &&& !c.snd.fin_queued
    &&& c.egress.len() == 0
    &&& c.rcv.blocks.len() == 0
    &&& r.snd.una == r.snd.nxt
    &&& r.snd.nxt == r.snd.end
    &&& r.snd.nxt == c.rcv.nxt
    &&& !r.snd.fin_queued
}

/// What `c` hands out when it is asked for a segment while it has none waiting and can
/// send something new: the next bytes of the send buffer, with the sequence number of the
/// next offset and an acknowledgment of what `c` expects next.
pub proof fn lemma_popped_data(c: ConnectionView, now: u64)
    requires
        c.wf(),
        c.egress.len() == 0,
        c.tcb.state == StateTag::Established,
        c.snd.sendable(c.tcb.snd_wnd as int),
        !c.snd.fin_queued,
    ensures
        c.popped(now).1 is Ok,
        ({
            let seg = c.popped(now).1->Ok_0;
            let after = c.popped(now).0;
            &&& seg.payload.len() > 0
            &&& seg.payload.len() <= MSS
            &&& seg.payload.len() == c.snd.next_len(c.tcb.snd_wnd as int, MSS as int)
            &&& c.snd.nxt + seg.payload.len() <= c.snd.una + c.tcb.snd_wnd
            &&& c.snd.nxt + seg.payload.len() <= c.snd.end
            &&& seg.payload == c.snd.data.subrange(
                c.snd.nxt - c.snd.una,
                c.snd.nxt - c.snd.una + seg.payload.len(),
            )
            &&& seg.header.seq == seq_add(c.tcb.iss, c.snd.nxt as int)
            &&& seg.header.ack == c.rcv_nxt()
            &&& seg.header.source() == c.tcb.local
            &&& seg.header.destination() == c.tcb.remote
            &&& seg.header.flags.has(TcpFlags::ACK)
            &&& !seg.header.flags.has(TcpFlags::RST)
            &&& !seg.header.flags.has(TcpFlags::SYN)
            &&& !seg.header.flags.has(TcpFlags::FIN)
            &&& seg.header.selective_acks == c.sack_option()
            &&& after.wf()
            &&& after.snd.nxt == c.snd.nxt + seg.payload.len()
            &&& after.snd.una == c.snd.una
            &&& after.snd.end == c.snd.end
            &&& after.snd.data == c.snd.data
            &&& after.snd.origin == c.snd.origin
            &&& after.snd.fin_queued == c.snd.fin_queued
            &&& after.egress.len() == 0
            &&& after.rcv == c.rcv
            &&& after.tcb.state == c.tcb.state
            &&& after.tcb.snd_wnd == c.tcb.snd_wnd
            &&& after.tcb.iss == c.tcb.iss
            &&& after.tcb.irs == c.tcb.irs
            &&& after.tcb.local == c.tcb.local
            &&& after.tcb.remote == c.tcb.remote
            &&& after.tcb.snd_wscale == c.tcb.snd_wscale
            &&& after.tcb.snd_wl1 == c.tcb.snd_wl1
            &&& after.tcb.snd_wl2 == c.tcb.snd_wl2
        }),
{
    let wnd = c.tcb.snd_wnd as int;
    let o = c.snd.next_segment(wnd, MSS as int);
    let psh = o.payload.len() > 0 && o.start + o.payload.len() == c.snd.end;
    TcpFlags::lemma_control(o.fin, false, false, psh, true);
    let after = c.popped(now).0;
    crate::well_formed::lemma_popped_wf(c, now);
}

/// The connection `b` is `a` with another control block: the buffers and the addresses,
/// the initial sequence numbers and the state are the same.
pub open spec fn same_streams(a: ConnectionView, b: ConnectionView) -> bool {
    &&& b.snd.origin == a.snd.origin
    &&& b.snd.una == a.snd.una
    &&& b.snd.nxt == a.snd.nxt
    &&& b.snd.end == a.snd.end
    &&& b.snd.data == a.snd.data
    &&& b.snd.fin_queued == a.snd.fin_queued
    &&& b.rcv == a.rcv
    &&& b.tcb.state == a.tcb.state
    &&& b.tcb.iss == a.tcb.iss
    &&& b.tcb.irs == a.tcb.irs
    &&& b.tcb.local == a.tcb.local
    &&& b.tcb.remote == a.tcb.remote
    &&& b.tcb.ack_owed == a.tcb.ack_owed
    &&& b.tcb.rcv_wscale == a.tcb.rcv_wscale
    &&& b.egress == a.egress
}

/// An acknowledgment of nothing new, without selective acknowledgments, for a connection
/// that has nothing in flight leaves the streams alone.
pub proof fn lemma_quiet_acknowledged(r: ConnectionView, now: u64, h: TcpHeader, len: int)
    requires
        r.wf(),
        r.ack_delta(h) == 0,
        r.snd.una == r.snd.nxt,
        !r.snd.fin_queued,
        h.selective_acks is None,
    ensures
        same_streams(r, r.acknowledged(now, h, len)),
        same_streams(r, r.acknowledged(now, h, len).settled(now)),
        r.acknowledged(now, h, len).settled(now).wf(),
{
    reveal(ConnectionView::acknowledged);
    reveal(ConnectionView::ack_taken);
    crate::send_buffer::lemma_tiles_ordered(
        r.snd.sent,
        r.snd.una as int,
        r.snd.nxt as int,
        r.snd.end as int,
        0,
    );
    assert(r.snd.sent.len() == 0);
    let t = r.ack_taken(now, h, len);
    assert(t == r);
    let n = t.sack_noted(h);
    assert(n == r);
    let w = n.window_noted(h);
    crate::connection::lemma_scaled_window_bound(h.window_size, r.tcb.snd_wscale);
    assert(w.snd.sent =~= r.snd.sent);
    assert(w.snd == r.snd);
    let a = r.acknowledged(now, h, len);
    assert(a.snd == r.snd);
    assert(a.wf());
}

/// The segment `seg` is an acknowledgment that the connection `r` made when it expected the
/// offset `p` next and had handed none of the bytes since to its application: it has no
/// bytes and no flag but ACK, and it announces the window that was left then, in units of
/// eight bytes.
pub open spec fn reports(r: ConnectionView, seg: SegmentView, p: int) -> bool {
    &&& seg.payload.len() == 0
    &&& seg.header.source() == r.tcb.local
    &&& seg.header.destination() == r.tcb.remote
    &&& seg.header.flags == TcpFlags::of_control(false, false, false, false, true)
    &&& seg.header.seq == seq_add(r.tcb.iss, r.snd.nxt as int)
    &&& seg.header.ack == seq_add(r.tcb.irs, p)
    &&& seg.header.selective_acks is None
    &&& seg.header.window_size == (RECV_CAPACITY - (p - 1 - r.rcv.delivered())) / 8
}

/// What taking in bytes in order does to the acknowledgments of the connection `r`: if two
/// full segments are owed an acknowledgment, one is made for everything that has arrived;
/// if not, the new bytes are owed one too.
pub open spec fn acknowledged_or_owed(r: ConnectionView, after: ConnectionView, len: int) -> bool {
    if r.tcb.ack_owed + len >= 2 * MSS {
        &&& after.egress.len() == r.egress.len() + 1
        &&& forall|i: int| 0 <= i < r.egress.len() ==> #[trigger] after.egress[i] == r.egress[i]
        &&& reports(after, after.egress[r.egress.len() as int], after.rcv.nxt as int)
        &&& after.tcb.ack_owed == 0
    } else {
        &&& after.egress == r.egress
        &&& after.tcb.ack_owed == r.tcb.ack_owed + len
    }
}

/// Bytes that arrive at the place that is expected next, while nothing waits behind a gap
/// and the window has room for all of them, are appended to the readable bytes.
pub proof fn lemma_delivered_in_order(r: ConnectionView, now: u64, h: TcpHeader, payload: Seq<u8>)
    requires
        r.wf(),
        r.tcb.state == StateTag::Established,
        r.seq_delta(h) == 0,
        !h.flags.has(TcpFlags::FIN),
        0 < payload.len() <= r.rcv.window(),
        r.rcv.nxt + payload.len() <= crate::seq::MAX_OFFSET,
        r.rcv.blocks.len() == 0,
        r.rcv.fin is None,
        r.snd.una == r.snd.nxt,
    ensures
        ({
            let after = r.delivered(now, h, payload).finished(now, h, payload.len() as int);
            &&& r.tcb.rcv_wscale == WINDOW_SHIFT && r.rcv.capacity == RECV_CAPACITY
                ==> acknowledged_or_owed(r, after, payload.len() as int)
            &&& after.tcb.rcv_wscale == r.tcb.rcv_wscale
            &&& after.wf()
            &&& after.rcv == (RecvBufferView {
                nxt: (r.rcv.nxt + payload.len()) as u64,
                readable: r.rcv.readable + payload,
                ..r.rcv
            })
            &&& after.snd == r.snd
            &&& after.tcb.state == r.tcb.state
            &&& after.tcb.iss == r.tcb.iss
            &&& after.tcb.irs == r.tcb.irs
            &&& after.tcb.local == r.tcb.local
            &&& after.tcb.remote == r.tcb.remote
            &&& after.tcb.snd_wnd == r.tcb.snd_wnd
        }),
{
    reveal(ConnectionView::delivered);
    reveal(ConnectionView::finished);
    let part = BlockView { start: r.rcv.nxt, data: payload.subrange(0, payload.len() as int) };
    assert(part.data =~= payload);
    assert(absorb(r.rcv.blocks, part) == (part, Seq::<BlockView>::empty()));
    let rcv = r.rcv.inserted(0, payload);
    assert(rcv.blocks =~= r.rcv.blocks);
    assert(rcv == (RecvBufferView {
        nxt: (r.rcv.nxt + payload.len()) as u64,
        readable: r.rcv.readable + payload,
        ..r.rcv
    }));
    crate::recv_buffer::lemma_inserted_wf(r.rcv, 0, payload);
    TcpFlags::lemma_control(false, false, false, false, true);
    let x = ConnectionView { rcv, ..r };
    if r.tcb.rcv_wscale == WINDOW_SHIFT && r.rcv.capacity == RECV_CAPACITY && r.tcb.ack_owed
        + payload.len() >= 2 * MSS {
        let after = r.delivered(now, h, payload).finished(now, h, payload.len() as int);
        assert(after == x.acking(now));
        assert(x.rcv.window() == RECV_CAPACITY - (x.rcv.nxt - 1 - x.rcv.delivered()));
        let seg = x.ack_segment(now);
        assert(seg.payload.len() == 0);
        assert(seg.header.source() == r.tcb.local);
        assert(seg.header.flags == TcpFlags::of_control(false, false, false, false, true));
        assert(seg.header.seq == seq_add(after.tcb.iss, after.snd.nxt as int));
        assert(seg.header.ack == seq_add(after.tcb.irs, after.rcv.nxt as int));
        assert(seg.header.selective_acks is None);
        assert(x.rcv.wf());
        assert(x.rcv.delivered() >= 0);
        assert(x.advertised() == x.rcv.window() / 8);
        assert(seg.header.window_size == (RECV_CAPACITY - (after.rcv.nxt - 1
            - after.rcv.delivered())) / 8);
        assert(reports(after, x.ack_segment(now), after.rcv.nxt as int));
    }
}

/// A connection that is in step with its peer takes in the next segment of the peer whole:
/// its readable bytes grow by the bytes of the segment, and it expects next what follows
/// them.
pub proof fn lemma_pushed_in_order(r: ConnectionView, now: u64, h: TcpHeader, payload: Seq<u8>)
    requires
        r.wf(),
        r.tcb.state == StateTag::Established,
        r.owns(h),
        h.flags.has(TcpFlags::ACK),
        !h.flags.has(TcpFlags::RST),
        !h.flags.has(TcpFlags::SYN),
        !h.flags.has(TcpFlags::FIN),
        h.seq == r.rcv_nxt(),
        h.ack == seq_add(r.tcb.iss, r.snd.una as int),
        h.selective_acks is None,
        r.snd.una == r.snd.nxt,
        !r.snd.fin_queued,
        0 < payload.len() <= r.rcv.window(),
        r.rcv.nxt + payload.len() <= crate::seq::MAX_OFFSET,
        r.rcv.blocks.len() == 0,
        r.rcv.fin is None,
    ensures
        ({
            let after = r.pushed(now, h, payload);
            &&& r.tcb.rcv_wscale == WINDOW_SHIFT && r.rcv.capacity == RECV_CAPACITY
                ==> acknowledged_or_owed(r, after, payload.len() as int)
            &&& after.tcb.rcv_wscale == r.tcb.rcv_wscale
            &&& after.wf()
            &&& after.rcv == (RecvBufferView {
                nxt: (r.rcv.nxt + payload.len()) as u64,
                readable: r.rcv.readable + payload,
                ..r.rcv
            })
            &&& after.snd.una == r.snd.una
            &&& after.snd.nxt == r.snd.nxt
            &&& after.snd.end == r.snd.end
            &&& after.snd.fin_queued == r.snd.fin_queued
            &&& after.tcb.state == r.tcb.state
            &&& after.tcb.iss == r.tcb.iss
            &&& after.tcb.irs == r.tcb.irs
            &&& after.tcb.local == r.tcb.local
            &&& after.tcb.remote == r.tcb.remote
        }),
{
    reveal(ConnectionView::pushed_synchronized);
    let len = payload.len() as int;
    assert(r.seq_delta(h) == 0);
    assert(r.ack_delta(h) == 0);
    assert(r.acceptable(h, len));
    lemma_quiet_acknowledged(r, now, h, len);
    let s = r.acknowledged(now, h, len).settled(now);
    assert(s.seq_delta(h) == 0);
    lemma_delivered_in_order(s, now, h, payload);
}

/// One step of a transfer: `c` hands out its next segment at the time `sent_at`, and `r`
/// takes it in at the time `arrived_at`. Each hands the timers that it asks for to its
/// timer object at once.
pub open spec fn stepped(c: ConnectionView, r: ConnectionView, sent_at: u64, arrived_at: u64) -> (
    ConnectionView,
    ConnectionView,
) {
    match c.popped(sent_at).1 {
        Ok(seg) => (
            c.popped(sent_at).0.flushed(),
            r.pushed(arrived_at, seg.header, seg.payload).flushed(),
        ),
        Err(_) => (c, r),
    }
}

/// A step of a transfer between connections that are in step leaves them in step, and the
/// bytes of the segment are appended to the readable bytes of the receiver.
pub proof fn lemma_step(
    c: ConnectionView,
    r: ConnectionView,
    stream: Seq<u8>,
    sent_at: u64,
    arrived_at: u64,
)
    requires
        in_step(c, r, stream),
        c.snd.sendable(c.tcb.snd_wnd as int),
    ensures
        ({
            let (c1, r1) = stepped(c, r, sent_at, arrived_at);
            &&& in_step(c1, r1, stream)
            &&& c.snd.nxt < c1.snd.nxt <= c.snd.end
            &&& c1.snd.una == c.snd.una
            &&& c1.snd.end == c.snd.end
            &&& c1.tcb.snd_wnd == c.tcb.snd_wnd
            &&& c1.tcb.iss == c.tcb.iss
            &&& c1.tcb.irs == c.tcb.irs
            &&& c1.tcb.snd_wscale == c.tcb.snd_wscale
            &&& c1.rcv == c.rcv
            &&& r1.tcb.rcv_wscale == r.tcb.rcv_wscale
            &&& r1.rcv.capacity == r.rcv.capacity
            &&& r1.rcv.readable == r.rcv.readable + stream.subrange(
                c.snd.nxt - 1,
                c1.snd.nxt - 1,
            )
            &&& r1.rcv.delivered() == r.rcv.delivered()
        }),
{
    lemma_popped_data(c, sent_at);
    crate::send_buffer::lemma_segment_agrees(c.snd, c.tcb.snd_wnd as int, MSS as int, stream);
    let seg = c.popped(sent_at).1->Ok_0;
    let c1 = c.popped(sent_at).0;
    let h = seg.header;
    let o = c.snd.next_segment(c.tcb.snd_wnd as int, MSS as int);
    assert(seg.payload == o.payload);
    lemma_pushed_in_order(r, arrived_at, h, seg.payload);
    let r1 = r.pushed(arrived_at, h, seg.payload);
    assert(r1.rcv.readable =~= stream.subrange(r1.rcv.delivered(), r1.rcv.received())) by {
        assert forall|i: int| 0 <= i < r1.rcv.readable.len() implies r1.rcv.readable[i]
            == stream[r1.rcv.delivered() + i] by {
            if i < r.rcv.readable.len() {
                assert(r.rcv.readable[i] == stream.subrange(
                    r.rcv.delivered(),
                    r.rcv.received(),
                )[i]);
            } else {
                assert(r1.rcv.readable[i] == seg.payload[i - r.rcv.readable.len()]);
            }
        }
    }
    assert(r1.rcv.blocks =~= r.rcv.blocks);
    assert(c1.snd.agrees_with(stream));
}

/// A transfer of up to `fuel` steps: as long as `c` can send something new, it hands out a
/// segment and `r` takes it in. The step `i` before the last happens at the times
/// `clock(2 * i + 1)` and `clock(2 * i)`.
pub open spec fn pumped(
    c: ConnectionView,
    r: ConnectionView,
    clock: spec_fn(nat) -> u64,
    fuel: nat,
) -> (ConnectionView, ConnectionView)
    decreases fuel,
{
    if fuel == 0 || !c.snd.sendable(c.tcb.snd_wnd as int) {
        (c, r)
    } else {
        let (c1, r1) = stepped(c, r, clock(2 * fuel + 1), clock(2 * fuel));
        pumped(c1, r1, clock, (fuel - 1) as nat)
    }
}

/// Between connections that are in step, a transfer with a step for every byte that waits
/// to be sent brings every byte that the send window lets through to the receiver: in the
/// end the receiver's readable bytes have grown by the bytes of the stream that were not
/// sent before, up to the end of the window.
#[verifier::rlimit(60)]
pub proof fn lemma_pumped(
    c: ConnectionView,
    r: ConnectionView,
    stream: Seq<u8>,
    clock: spec_fn(nat) -> u64,
    fuel: nat,
)
    requires
        in_step(c, r, stream),
        fuel >= c.snd.end - c.snd.nxt,
    ensures
        ({
            let (c2, r2) = pumped(c, r, clock, fuel);
            &&& in_step(c2, r2, stream)
            &&& !c2.snd.sendable(c2.tcb.snd_wnd as int)
            &&& c.snd.nxt <= c2.snd.nxt <= c.snd.end
            &&& c2.snd.una == c.snd.una
            &&& c2.snd.end == c.snd.end
            &&& c2.tcb.snd_wnd == c.tcb.snd_wnd
            &&& c2.tcb.iss == c.tcb.iss
            &&& c2.tcb.irs == c.tcb.irs
            &&& c2.tcb.snd_wscale == c.tcb.snd_wscale
            &&& c2.rcv == c.rcv
            &&& r2.tcb.rcv_wscale == r.tcb.rcv_wscale
            &&& r2.rcv.capacity == r.rcv.capacity
            &&& r2.rcv.readable == r.rcv.readable + stream.subrange(c.snd.nxt - 1, c2.snd.nxt - 1)
            &&& r2.rcv.delivered() == r.rcv.delivered()
        }),
    decreases fuel,
{
    if fuel == 0 || !c.snd.sendable(c.tcb.snd_wnd as int) {
        assert(stream.subrange(c.snd.nxt - 1, c.snd.nxt - 1) =~= Seq::<u8>::empty());
        assert(r.rcv.readable + Seq::<u8>::empty() =~= r.rcv.readable);
    } else {
        lemma_step(c, r, stream, clock(2 * fuel + 1), clock(2 * fuel));
        let (c1, r1) = stepped(c, r, clock(2 * fuel + 1), clock(2 * fuel));
        lemma_pumped(c1, r1, stream, clock, (fuel - 1) as nat);
        let (c2, r2) = pumped(c1, r1, clock, (fuel - 1) as nat);
        assert(stream.subrange(c.snd.nxt - 1, c1.snd.nxt - 1) + stream.subrange(
            c1.snd.nxt - 1,
            c2.snd.nxt - 1,
        ) =~= stream.subrange(c.snd.nxt - 1, c2.snd.nxt - 1));
        assert(r2.rcv.readable =~= r.rcv.readable + stream.subrange(
            c.snd.nxt - 1,
            c2.snd.nxt - 1,
        ));
    }
}

/// Connections that are in step stay in step when the application hands bytes to the
/// sender that fit into its buffer: the stream grows by these bytes.
pub proof fn lemma_sent_in_step(c: ConnectionView, r: ConnectionView, stream: Seq<u8>, bytes: Seq<u8>)
    requires
        in_step(c, r, stream),
        bytes.len() <= c.snd.room(),
    ensures
        bytes.len() > 0 ==> c.send_result(bytes.len() as int, bytes.len() as int) == Ok::<
            usize,
            crate::error::SendError,
        >(bytes.len() as usize),
        bytes.len() > 0 ==> in_step(c.sent(bytes, bytes.len() as int), r, stream + bytes),
        bytes.len() > 0 ==> c.sent(bytes, bytes.len() as int).tcb == c.tcb,
        bytes.len() > 0 ==> c.sent(bytes, bytes.len() as int).rcv == c.rcv,
        bytes.len() > 0 ==> c.sent(bytes, bytes.len() as int).snd.una == c.snd.una,
        bytes.len() > 0 ==> c.sent(bytes, bytes.len() as int).snd.nxt == c.snd.nxt,
        bytes.len() > 0 ==> c.sent(bytes, bytes.len() as int).snd.end == c.snd.end + bytes.len(),
{
    if bytes.len() > 0 {
        let n = bytes.len() as int;
        let c1 = c.sent(bytes, n);
        assert(bytes.take(n) =~= bytes);
        crate::send_buffer::lemma_append_agrees(c.snd, bytes, stream);
        crate::recv_buffer::lemma_agrees_with_longer(r.rcv, stream, bytes);
        assert(c1.snd.wf()) by {
            assert forall|i: int| 0 <= i < c1.snd.sent.len() implies {
                let s = #[trigger] c1.snd.sent[i];
                s.space() > 0 && s.start + s.len <= c1.snd.end && (s.fin ==> s.start + s.len
                    == c1.snd.end)
            } by {
                assert(c.snd.sent[i] == c1.snd.sent[i]);
            }
        }
    }
}

/// The segment `seg` is an acknowledgment for the connection `c` of everything before the
/// offset `p`, from a peer that sends nothing itself: it has no bytes and no flag but ACK,
/// and its sequence number is the one that `c` expects.
pub open spec fn acknowledges(seg: SegmentView, c: ConnectionView, p: int) -> bool {
    &&& seg.payload.len() == 0
    &&& c.owns(seg.header)
    &&& seg.header.flags == TcpFlags::of_control(false, false, false, false, true)
    &&& seg.header.seq == c.rcv_nxt()
    &&& seg.header.ack == seq_add(c.tcb.iss, p)
    &&& seg.header.selective_acks is None
}

/// What an acknowledgment of something that has been sent leaves of an established
/// connection that has sent it: the oldest unacknowledged offset moves up to the
/// acknowledgment, the window is set anew, and nothing else changes in its streams.
pub proof fn lemma_pushed_ack(c: ConnectionView, now: u64, seg: SegmentView, p: int, stream: Seq<u8>)
    requires
        c.wf(),
        c.tcb.state == StateTag::Established,
        c.egress.len() == 0,
        !c.snd.fin_queued,
        c.rcv.fin is None,
        c.snd.agrees_with(stream),
        acknowledges(seg, c, p),
        c.snd.una <= p <= c.snd.nxt,
        c.snd.nxt <= p + crate::connection::scaled_window(
            seg.header.window_size,
            c.tcb.snd_wscale,
        ),
        c.updates_window(seg.header),
    ensures
        ({
            let after = c.pushed(now, seg.header, seg.payload);
            &&& after.wf()
            &&& after.tcb.state == StateTag::Established
            &&& after.egress.len() == 0
            &&& after.snd.una == p
            &&& after.snd.nxt == c.snd.nxt
            &&& after.snd.end == c.snd.end
            &&& after.snd.origin == c.snd.origin
            &&& after.snd.capacity == c.snd.capacity
            &&& !after.snd.fin_queued
            &&& after.snd.agrees_with(stream)
            &&& after.rcv == c.rcv
            &&& after.tcb.iss == c.tcb.iss
            &&& after.tcb.irs == c.tcb.irs
            &&& after.tcb.local == c.tcb.local
            &&& after.tcb.remote == c.tcb.remote
            &&& after.tcb.snd_wscale == c.tcb.snd_wscale
            &&& after.tcb.snd_wnd == crate::connection::scaled_window(
                seg.header.window_size,
                c.tcb.snd_wscale,
            )
            &&& after.tcb.snd_wl1 == seg.header.seq
            &&& after.tcb.snd_wl2 == seg.header.ack
        }),
{
    reveal(ConnectionView::pushed_synchronized);
    let h = seg.header;
    TcpFlags::lemma_control(false, false, false, false, true);
    crate::send_buffer::lemma_tiles_ordered(
        c.snd.sent,
        c.snd.una as int,
        c.snd.nxt as int,
        c.snd.end as int,
        0,
    );
    crate::seq::lemma_diff_of_offsets(c.tcb.iss, p, c.snd.una as int);
    assert(c.ack_delta(h) == p - c.snd.una);
    assert(c.seq_delta(h) == 0);
    assert(c.acceptable(h, 0));
    lemma_acknowledged_ack(c, now, h, p, stream);
    let a = c.acknowledged(now, h, 0);
    let s = a.settled(now);
    assert(s == a);
    reveal(ConnectionView::delivered);
    reveal(ConnectionView::finished);
    assert(seg.payload =~= Seq::<u8>::empty());
    assert(c.pushed(now, h, seg.payload) == s.delivered(now, h, seg.payload).finished(now, h, 0));
}

/// The step of [`lemma_pushed_ack`] in which the acknowledgment and the window are taken
/// in.
pub proof fn lemma_acknowledged_ack(c: ConnectionView, now: u64, h: TcpHeader, p: int, stream: Seq<u8>)
    requires
        c.wf(),
        c.tcb.state == StateTag::Established,
        !c.snd.fin_queued,
        c.snd.agrees_with(stream),
        h.selective_acks is None,
        c.ack_delta(h) == p - c.snd.una,
        c.seq_delta(h) == 0,
        c.snd.una <= p <= c.snd.nxt,
        c.snd.nxt <= p + crate::connection::scaled_window(h.window_size, c.tcb.snd_wscale),
        c.updates_window(h),
    ensures
        ({
            let after = c.acknowledged(now, h, 0);
            &&& after.wf()
            &&& after.tcb.state == StateTag::Established
            &&& after.egress == c.egress
            &&& after.snd.una == p
            &&& after.snd.nxt == c.snd.nxt
            &&& after.snd.end == c.snd.end
            &&& after.snd.origin == c.snd.origin
            &&& after.snd.capacity == c.snd.capacity
            &&& !after.snd.fin_queued
            &&& after.snd.agrees_with(stream)
            &&& after.rcv == c.rcv
            &&& after.tcb.iss == c.tcb.iss
            &&& after.tcb.irs == c.tcb.irs
            &&& after.tcb.local == c.tcb.local
            &&& after.tcb.remote == c.tcb.remote
            &&& after.tcb.snd_wscale == c.tcb.snd_wscale
            &&& after.tcb.snd_wnd == crate::connection::scaled_window(
                h.window_size,
                c.tcb.snd_wscale,
            )
            &&& after.tcb.snd_wl1 == h.seq
            &&& after.tcb.snd_wl2 == h.ack
            &&& after.tcb.ack_owed == c.tcb.ack_owed
        }),
{
    reveal(ConnectionView::acknowledged);
    reveal(ConnectionView::ack_taken);
    let wnd = crate::connection::scaled_window(h.window_size, c.tcb.snd_wscale);
    crate::connection::lemma_scaled_window_bound(h.window_size, c.tcb.snd_wscale);
    let t = c.ack_taken(now, h, 0);
    crate::send_buffer::lemma_acked_wf(c.snd, p as u64);
    crate::send_buffer::lemma_ack_agrees(c.snd, p as u64, stream);
    match c.snd.round_trip_start(p as u64) {
        Some(at) => {
            c.tcb.rtt.lemma_stays_wf(crate::connection::elapsed(now, at));
        },
        None => {},
    }
    assert(t.snd == c.snd.acked(p as u64));
    assert(t.snd.wf());
    assert(t.snd.una == p);
    assert(t.snd.nxt == c.snd.nxt);
    let n = t.sack_noted(h);
    assert(n == t);
    assert(n.updates_window(h));
    let w = n.window_noted(h);
    crate::send_buffer::lemma_shrunk_wf(t.snd, wnd as int);
    assert(w.snd == t.snd);
}

/// The connections `c` and `r` are in step, both use the engine's window shift and buffer
/// size, and `c` has not seen a FIN.
pub open spec fn paired(c: ConnectionView, r: ConnectionView, stream: Seq<u8>) -> bool {
    &&& in_step(c, r, stream)
    &&& c.tcb.snd_wscale == WINDOW_SHIFT
    &&& r.tcb.rcv_wscale == WINDOW_SHIFT
    &&& r.rcv.capacity == RECV_CAPACITY
    &&& c.rcv.fin is None
}

/// The segments that `r` has ready for the wire are acknowledgments of the offsets `ps`,
/// which do not lie before `from` and do not go down, and the last of them acknowledges
/// everything but the bytes that are still owed an acknowledgment. If none is ready,
/// nothing that is not owed an acknowledgment lies behind `from`.
pub open spec fn acks_waiting(r: ConnectionView, ps: Seq<int>, from: int) -> bool {
    &&& ps.len() == r.egress.len()
    &&& forall|i: int|
        0 <= i < ps.len() ==> reports(r, r.egress[i], #[trigger] ps[i]) && from <= ps[i]
            <= r.rcv.nxt
    &&& forall|i: int, j: int| 0 <= i <= j < ps.len() ==> #[trigger] ps[i] <= #[trigger] ps[j]
    &&& ps.len() > 0 ==> ps[ps.len() - 1] == r.rcv.nxt - r.tcb.ack_owed
    &&& ps.len() == 0 ==> r.rcv.nxt - r.tcb.ack_owed <= from
    &&& from <= r.rcv.nxt
}

/// Each of the offsets `ps` lies a multiple of eight bytes behind what the application of
/// `r` has taken: an acknowledgment of it announces the whole window that is left.
pub open spec fn on_grid(r: ConnectionView, ps: Seq<int>) -> bool {
    forall|i: int| 0 <= i < ps.len() ==> (#[trigger] ps[i] - 1 - r.rcv.delivered()) % 8 == 0
}

/// The transfer from `c` to `r` runs in full segments: the offsets `ps` that `r` has
/// acknowledged, and the offset up to which nothing is owed an acknowledgment, lie a
/// multiple of eight bytes behind what the application of `r` has taken; and either
/// nothing or one full segment is owed an acknowledgment, or `c` cannot send any more.
pub open spec fn in_full_segments(c: ConnectionView, r: ConnectionView, ps: Seq<int>) -> bool {
    &&& on_grid(r, ps)
    &&& (r.rcv.nxt - r.tcb.ack_owed - 1 - r.rcv.delivered()) % 8 == 0
    &&& r.tcb.ack_owed == 0 || r.tcb.ack_owed == MSS || !c.snd.sendable(c.tcb.snd_wnd as int)
}

/// A step of a transfer between paired connections leaves them paired, and the receiver
/// has at most one acknowledgment more ready for the wire. A transfer that runs in full
/// segments goes on so.
pub proof fn lemma_step_acks(
    c: ConnectionView,
    r: ConnectionView,
    stream: Seq<u8>,
    ps: Seq<int>,
    from: int,
    sent_at: u64,
    arrived_at: u64,
) -> (ps1: Seq<int>)
    requires
        paired(c, r, stream),
        c.snd.sendable(c.tcb.snd_wnd as int),
        acks_waiting(r, ps, from),
    ensures
        ({
            let (c1, r1) = stepped(c, r, sent_at, arrived_at);
            &&& paired(c1, r1, stream)
            &&& acks_waiting(r1, ps1, from)
            &&& ps1.len() <= ps.len() + 1
            &&& c1.tcb.snd_wl1 == c.tcb.snd_wl1
            &&& c1.tcb.snd_wl2 == c.tcb.snd_wl2
            &&& in_full_segments(c, r, ps) ==> in_full_segments(c1, r1, ps1)
        }),
{
    lemma_step(c, r, stream, sent_at, arrived_at);
    lemma_popped_data(c, sent_at);
    let seg = c.popped(sent_at).1->Ok_0;
    lemma_pushed_in_order(r, arrived_at, seg.header, seg.payload);
    let (c1, r1) = stepped(c, r, sent_at, arrived_at);
    let len = seg.payload.len() as int;
    assert(acknowledged_or_owed(r, r1, len));
    assert(r1.rcv.nxt == r.rcv.nxt + len);
    assert(len < MSS ==> !c1.snd.sendable(c1.tcb.snd_wnd as int));
    if r.tcb.ack_owed + len >= 2 * MSS {
        let ps1 = ps.push(r1.rcv.nxt as int);
        if in_full_segments(c, r, ps) {
            assert(r.tcb.ack_owed == MSS && len == MSS);
            assert forall|i: int| 0 <= i < ps1.len() implies (#[trigger] ps1[i] - 1
                - r1.rcv.delivered()) % 8 == 0 by {
                if i < ps.len() {
                    assert(ps1[i] == ps[i]);
                }
            }
        }
        assert forall|i: int| 0 <= i < ps1.len() implies reports(r1, r1.egress[i], #[trigger] ps1[i])
            && from <= ps1[i] <= r1.rcv.nxt by {
            if i < ps.len() {
                assert(r1.egress[i] == r.egress[i]);
                assert(reports(r, r.egress[i], ps[i]));
            } else {
                assert(reports(r1, r1.egress[r.egress.len() as int], r1.rcv.nxt as int));
            }
        }
        ps1
    } else {
        assert forall|i: int| 0 <= i < ps.len() implies reports(r1, r1.egress[i], #[trigger] ps[i])
            && from <= ps[i] <= r1.rcv.nxt by {
            assert(reports(r, r.egress[i], ps[i]));
        }
        ps
    }
}

/// A transfer between paired connections leaves them paired, with the acknowledgments of
/// the receiver ready for the wire. If it runs in full segments, every acknowledgment
/// announces the whole window that is left.
#[verifier::rlimit(60)]
pub proof fn lemma_pumped_acks(
    c: ConnectionView,
    r: ConnectionView,
    stream: Seq<u8>,
    ps: Seq<int>,
    from: int,
    clock: spec_fn(nat) -> u64,
    fuel: nat,
) -> (ps2: Seq<int>)
    requires
        paired(c, r, stream),
        acks_waiting(r, ps, from),
    ensures
        ({
            let (c2, r2) = pumped(c, r, clock, fuel);
            &&& paired(c2, r2, stream)
            &&& acks_waiting(r2, ps2, from)
            &&& ps2.len() <= ps.len() + fuel
            &&& c2.tcb.snd_wl1 == c.tcb.snd_wl1
            &&& c2.tcb.snd_wl2 == c.tcb.snd_wl2
            &&& in_full_segments(c, r, ps) ==> on_grid(r2, ps2)
        }),
    decreases fuel,
{
    if fuel == 0 || !c.snd.sendable(c.tcb.snd_wnd as int) {
        ps
    } else {
        let ps1 = lemma_step_acks(
            c,
            r,
            stream,
            ps,
            from,
            clock(2 * fuel + 1),
            clock(2 * fuel),
        );
        let (c1, r1) = stepped(c, r, clock(2 * fuel + 1), clock(2 * fuel));
        lemma_pumped_acks(c1, r1, stream, ps1, from, clock, (fuel - 1) as nat)
    }
}

/// The way back of up to `fuel` segments: as long as `r` has a segment ready for the wire,
/// it hands it out and `c` takes it in.
pub open spec fn returned(
    c: ConnectionView,
    r: ConnectionView,
    clock: spec_fn(nat) -> u64,
    fuel: nat,
) -> (ConnectionView, ConnectionView)
    decreases fuel,
{
    if fuel == 0 || r.egress.len() == 0 {
        (c, r)
    } else {
        let seg = r.egress[0];
        returned(
            c.pushed(clock(2 * fuel), seg.header, seg.payload).flushed(),
            r.popped(clock(2 * fuel + 1)).0.flushed(),
            clock,
            (fuel - 1) as nat,
        )
    }
}

/// The offset behind the receive window of `r`, as long as its application takes no bytes.
pub open spec fn right_edge(r: ConnectionView) -> int {
    1 + r.rcv.delivered() + RECV_CAPACITY
}

/// The window that an acknowledgment of the offset `p` opens reaches to the offset behind
/// the receive window of `r`, or to one of the seven offsets before it; it reaches to the
/// offset behind the window if `p` lies a multiple of eight bytes behind what the
/// application has taken.
pub proof fn lemma_window_of_ack(r: ConnectionView, seg: SegmentView, p: int)
    requires
        r.rcv.wf(),
        r.rcv.origin == 1,
        r.rcv.capacity == RECV_CAPACITY,
        reports(r, seg, p),
        1 <= p <= r.rcv.nxt,
        !r.rcv.fin_reached,
    ensures
        right_edge(r) - 7 <= p + crate::connection::scaled_window(
            seg.header.window_size,
            WINDOW_SHIFT,
        ) <= right_edge(r),
        right_edge(r) == r.rcv.nxt + r.rcv.window(),
        (p - 1 - r.rcv.delivered()) % 8 == 0 ==> p + crate::connection::scaled_window(
            seg.header.window_size,
            WINDOW_SHIFT,
        ) == right_edge(r),
{
    crate::connection::lemma_scaled_window_bound(seg.header.window_size, WINDOW_SHIFT);
    let x = RECV_CAPACITY - (p - 1 - r.rcv.delivered());
    assert(r.rcv.received() == r.rcv.nxt - 1);
    assert(0 <= x);
    assert(seg.header.window_size == x / 8);
    assert(crate::connection::scale_factor(WINDOW_SHIFT) == 8);
    assert(crate::connection::scaled_window(seg.header.window_size, WINDOW_SHIFT) == 8 * (x / 8));
    assert(x - 7 <= 8 * (x / 8) <= x);
}

/// One step of the way back between paired connections: `r` hands out the acknowledgment
/// that waits first, and `c` takes it in. The oldest unacknowledged offset of `c` moves up
/// to what is acknowledged, its window is opened anew, and the two stay paired. For this
/// the bytes of `c` end eight bytes before the window of `r`, or every acknowledgment
/// announces the whole window; the new window of `c` then ends where that of `r` ends.
#[verifier::rlimit(60)]
pub proof fn lemma_return_step(
    c: ConnectionView,
    r: ConnectionView,
    stream: Seq<u8>,
    ps: Seq<int>,
    sent_at: u64,
    arrived_at: u64,
)
    requires
        paired(c, r, stream),
        acks_waiting(r, ps, c.snd.una as int),
        ps.len() > 0,
        c.snd.end + 8 <= right_edge(r) || on_grid(r, ps),
        c.updates_window(r.egress[0].header),
    ensures
        ({
            let seg = r.egress[0];
            let c1 = c.pushed(arrived_at, seg.header, seg.payload).flushed();
            let r1 = r.popped(sent_at).0.flushed();
            &&& r.popped(sent_at).1 == Ok::<SegmentView, crate::error::PopPacketError>(seg)
            &&& paired(c1, r1, stream)
            &&& acks_waiting(r1, ps.drop_first(), c1.snd.una as int)
            &&& ps.len() > 1 ==> c1.updates_window(r1.egress[0].header)
            &&& r1.rcv == r.rcv
            &&& r1.snd == r.snd
            &&& r1.tcb == r.tcb
            &&& r1.egress == r.egress.drop_first()
            &&& c1.snd.nxt == c.snd.nxt
            &&& c1.snd.end == c.snd.end
            &&& c1.snd.una == ps[0]
            &&& c1.egress.len() == 0
            &&& right_edge(r) - 7 <= c1.snd.una + c1.tcb.snd_wnd
            &&& on_grid(r, ps) ==> right_edge(r) <= c1.snd.una + c1.tcb.snd_wnd && on_grid(
                r1,
                ps.drop_first(),
            )
        }),
{
    let seg = r.egress[0];
    let p = ps[0];
    if on_grid(r, ps) {
        assert((ps[0] - 1 - r.rcv.delivered()) % 8 == 0);
        assert forall|i: int| 0 <= i < ps.drop_first().len() implies (#[trigger] ps.drop_first()[i]
            - 1 - r.rcv.delivered()) % 8 == 0 by {
            assert(ps.drop_first()[i] == ps[i + 1]);
        }
    }
    let c1 = c.pushed(arrived_at, seg.header, seg.payload).flushed();
    let r1 = r.popped(sent_at).0.flushed();
    assert(reports(r, seg, p));
    lemma_window_of_ack(r, seg, p);
    assert(acknowledges(seg, c, p));
    lemma_pushed_ack(c, arrived_at, seg, p, stream);
    let ps1 = ps.drop_first();
    assert(r1.egress == r.egress.drop_first());
    assert(r1.rcv == r.rcv && r1.snd == r.snd && r1.tcb == r.tcb);
    assert(c1.wf() && r1.wf());
    assert forall|i: int| 0 <= i < ps1.len() implies reports(r1, r1.egress[i], #[trigger] ps1[i])
        && c1.snd.una <= ps1[i] <= r1.rcv.nxt by {
        assert(ps1[i] == ps[i + 1]);
        assert(r1.egress[i] == r.egress[i + 1]);
        assert(reports(r, r.egress[i + 1], ps[i + 1]));
        assert(ps[0] <= ps[i + 1]);
    }
    assert forall|i: int, j: int| 0 <= i <= j < ps1.len() implies #[trigger] ps1[i]
        <= #[trigger] ps1[j] by {
        assert(ps[i + 1] <= ps[j + 1]);
    }
    if ps1.len() > 0 {
        assert(ps1[ps1.len() - 1] == ps[ps.len() - 1]);
        let next = r1.egress[0];
        assert(reports(r1, next, ps1[0]));
        assert(ps[0] <= ps[1]);
        crate::seq::lemma_diff_of_offsets(c.tcb.iss, p, ps1[0]);
        assert(c1.updates_window(next.header));
    } else {
        assert(ps[0] == ps[ps.len() - 1]);
    }
    assert(acks_waiting(r1, ps1, c1.snd.una as int));
    assert(in_step(c1, r1, stream));
}

/// On the way back between paired connections every acknowledgment moves the oldest
/// unacknowledged offset of `c` up and opens its window anew. In the end no segment waits
/// at `r`, and if one did, `c` has the last one's acknowledgment and window.
pub proof fn lemma_returned(
    c: ConnectionView,
    r: ConnectionView,
    stream: Seq<u8>,
    ps: Seq<int>,
    clock: spec_fn(nat) -> u64,
    fuel: nat,
)
    requires
        paired(c, r, stream),
        acks_waiting(r, ps, c.snd.una as int),
        fuel >= ps.len(),
        c.snd.end + 8 <= right_edge(r) || on_grid(r, ps),
        ps.len() > 0 ==> c.updates_window(r.egress[0].header),
    ensures
        ({
            let (c2, r2) = returned(c, r, clock, fuel);
            &&& ps.len() > 0 && on_grid(r, ps) ==> right_edge(r) <= c2.snd.una + c2.tcb.snd_wnd
            &&& paired(c2, r2, stream)
            &&& r2.egress.len() == 0
            &&& r2.rcv == r.rcv
            &&& r2.snd == r.snd
            &&& c2.snd.nxt == c.snd.nxt
            &&& c2.snd.end == c.snd.end
            &&& c2.egress.len() == 0
            &&& ps.len() == 0 ==> c2 == c
            &&& ps.len() > 0 ==> c2.snd.una == ps[ps.len() - 1] && right_edge(r) - 7 <= c2.snd.una
                + c2.tcb.snd_wnd
        }),
    decreases fuel,
{
    if fuel == 0 || r.egress.len() == 0 {
    } else {
        let seg = r.egress[0];
        lemma_return_step(c, r, stream, ps, clock(2 * fuel + 1), clock(2 * fuel));
        let c1 = c.pushed(clock(2 * fuel), seg.header, seg.payload).flushed();
        let r1 = r.popped(clock(2 * fuel + 1)).0.flushed();
        let ps1 = ps.drop_first();
        if ps1.len() > 0 {
            assert(ps1[ps1.len() - 1] == ps[ps.len() - 1]);
        }
        lemma_returned(c1, r1, stream, ps1, clock, (fuel - 1) as nat);
    }
}

/// An exchange: a transfer from `c` to `r`, the way back of the acknowledgments of `r`, and a
/// second transfer from `c` to `r`, each with up to `fuel` segments, at times of `clock`.
pub open spec fn exchanged(
    c: ConnectionView,
    r: ConnectionView,
    clock: spec_fn(nat) -> u64,
    fuel: nat,
) -> (ConnectionView, ConnectionView) {
    let (c1, r1) = pumped(c, r, |i: nat| clock(3 * i), fuel);
    let (c2, r2) = returned(c1, r1, |i: nat| clock(3 * i + 1), fuel);
    pumped(c2, r2, |i: nat| clock(3 * i + 2), fuel)
}

/// An exchange between paired connections brings every byte that waits to be sent to the
/// receiver, if the first window has room for two full segments, no acknowledgment is
/// under way, the first acknowledgment that comes back is newer than what set the
/// sender's window last, and the bytes end eight bytes before the receiver's window, or
/// end in the window while the transfer runs in full segments.
///
/// An acknowledgment announces the window in units of eight bytes. So the window that the
/// sender learns of may end up to seven bytes before the receiver's; it ends where the
/// receiver's ends if the acknowledgment was made a multiple of eight bytes behind what
/// the application has taken, as it is after every second full segment.
#[verifier::rlimit(80)]
pub proof fn lemma_exchanged(
    c: ConnectionView,
    r: ConnectionView,
    stream: Seq<u8>,
    clock: spec_fn(nat) -> u64,
    fuel: nat,
)
    requires
        paired(c, r, stream),
        r.egress.len() == 0,
        r.rcv.nxt - r.tcb.ack_owed <= c.snd.una,
        c.tcb.snd_wnd >= 2 * MSS,
        fuel >= c.snd.end - c.snd.nxt,
        c.snd.end + 8 <= right_edge(r) || (c.snd.end <= right_edge(r) && in_full_segments(
            c,
            r,
            Seq::empty(),
        )),
        crate::seq::seq_lt(c.tcb.snd_wl1, seq_add(r.tcb.iss, r.snd.nxt as int)),
    ensures
        ({
            let (c3, r3) = exchanged(c, r, clock, fuel);
            &&& paired(c3, r3, stream)
            &&& c3.snd.nxt == c.snd.end
            &&& c3.snd.end == c.snd.end
            &&& r3.rcv.readable == r.rcv.readable + stream.subrange(
                c.snd.nxt - 1,
                c.snd.end - 1,
            )
            &&& r3.rcv.delivered() == r.rcv.delivered()
        }),
{
    let k1 = |i: nat| clock(3 * i);
    let k2 = |i: nat| clock(3 * i + 1);
    let k3 = |i: nat| clock(3 * i + 2);
    let ps0 = Seq::<int>::empty();
    let from = c.snd.una as int;
    assert(acks_waiting(r, ps0, from));
    let ps1 = lemma_pumped_acks(c, r, stream, ps0, from, k1, fuel);
    lemma_pumped(c, r, stream, k1, fuel);
    let (c1, r1) = pumped(c, r, k1, fuel);
    lemma_first_ack_is_newer(c, r, c1, r1, ps1);
    lemma_edge_stays(r, r1);
    lemma_returned(c1, r1, stream, ps1, k2, fuel);
    let (c2, r2) = returned(c1, r1, k2, fuel);
    lemma_pumped(c2, r2, stream, k3, fuel);
    let (c3, r3) = pumped(c2, r2, k3, fuel);
    if ps1.len() == 0 {
        assert(r1.rcv.nxt - r1.tcb.ack_owed <= from);
        assert(c1.snd.nxt == c1.snd.end);
    }
    assert(c3.snd.nxt == c3.snd.end);
    assert(stream.subrange(c.snd.nxt - 1, c1.snd.nxt - 1) + stream.subrange(
        c1.snd.nxt - 1,
        c3.snd.nxt - 1,
    ) =~= stream.subrange(c.snd.nxt - 1, c3.snd.nxt - 1));
    assert(r3.rcv.readable =~= r.rcv.readable + stream.subrange(c.snd.nxt - 1, c.snd.end - 1));
    assert(paired(c3, r3, stream));
    assert(r3.rcv.delivered() == r.rcv.delivered());
    assert(exchanged(c, r, clock, fuel) == (c3, r3));
}

/// The first acknowledgment that waits after a transfer is newer than what set the
/// sender's window before the transfer.
pub proof fn lemma_first_ack_is_newer(
    c: ConnectionView,
    r: ConnectionView,
    c1: ConnectionView,
    r1: ConnectionView,
    ps: Seq<int>,
)
    requires
        crate::seq::seq_lt(c.tcb.snd_wl1, seq_add(r.tcb.iss, r.snd.nxt as int)),
        c1.tcb.snd_wl1 == c.tcb.snd_wl1,
        r1.tcb.iss == r.tcb.iss,
        r1.snd.nxt == r.snd.nxt,
        acks_waiting(r1, ps, c1.snd.una as int),
    ensures
        ps.len() > 0 ==> c1.updates_window(r1.egress[0].header),
{
    if ps.len() > 0 {
        assert(reports(r1, r1.egress[0], ps[0]));
    }
}

/// The offset behind the receive window stays where it is while the application takes no
/// bytes.
pub proof fn lemma_edge_stays(r: ConnectionView, r1: ConnectionView)
    requires
        r1.rcv.delivered() == r.rcv.delivered(),
    ensures
        right_edge(r1) == right_edge(r),
{
}

} // verus!
