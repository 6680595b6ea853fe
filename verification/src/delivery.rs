//! Why the bytes that one side takes out are a prefix of the bytes that the other side put
//! in.
//!
//! The argument has two halves, one for each side, and both speak of the same stream: all
//! the bytes that the application on the sending side has handed over so far. The sender
//! puts on the wire only segments whose bytes are the bytes of the stream at the segment's
//! place. The receiver, as long as it is fed only such segments, holds only bytes of the
//! stream at their places, and hands them to its application in the order of the stream,
//! without gap or repetition.

use vstd::prelude::*;
use crate::connection::{
    sack_all,
    sack_one,
    ConnectionView,
    SegmentView,
    StateTag,
    MSS,
};
use crate::flags::TcpFlags;
use crate::header::TcpHeader;
use crate::recv_buffer::{
    lemma_drain_agrees,
    lemma_fin_agrees,
    lemma_insert_agrees,
    segment_agrees,
};
use crate::send_buffer::{
    lemma_ack_agrees,
    lemma_append_agrees,
    lemma_retransmission_agrees,
    lemma_segment_agrees,
    SendBufferView,
};
use crate::seq::{lemma_add_add, lemma_diff_of_offsets, seq_add};
use crate::timer::Timer;

verus! {

/// The segment `seg` has the bytes that `stream` has from the offset `off` on, where the
/// SYN of the stream has the sequence number `base`, and so its first byte the offset 1.
pub open spec fn placed(seg: SegmentView, base: u32, off: int, stream: Seq<u8>) -> bool {
    &&& 1 <= off
    &&& seg.header.seq == seq_add(base, off)
    &&& off - 1 + seg.payload.len() <= stream.len()
    &&& seg.payload == stream.subrange(off - 1, off - 1 + seg.payload.len())
}

/// The segment `seg` carries nothing but bytes of `stream` at their places, and if it has
/// a FIN, the FIN stands behind the last byte of the stream.
pub open spec fn carries(seg: SegmentView, base: u32, stream: Seq<u8>) -> bool {
    if seg.header.flags.has(TcpFlags::FIN) {
        exists|off: int| #[trigger]
            placed(seg, base, off, stream) && off - 1 + seg.payload.len() == stream.len()
    } else {
        seg.payload.len() == 0 || exists|off: int| #[trigger] placed(seg, base, off, stream)
    }
}

/// The connection `c` sends `stream`: its send buffer holds the end of the stream, every
/// segment that it has ready for the wire carries bytes of the stream at their places, and
/// none of them has a FIN unless the application has closed the stream.
pub open spec fn sends(c: ConnectionView, stream: Seq<u8>) -> bool {
    &&& c.snd.agrees_with(stream)
    &&& forall|i: int|
        0 <= i < c.egress.len() ==> carries(#[trigger] c.egress[i], c.tcb.iss, stream) && (
        c.egress[i].header.flags.has(TcpFlags::FIN) ==> c.snd.fin_queued)
}

/// A segment without FIN that carries bytes of a stream carries bytes of every longer
/// stream that starts with it.
pub proof fn lemma_carries_longer(seg: SegmentView, base: u32, stream: Seq<u8>, more: Seq<u8>)
    requires
        carries(seg, base, stream),
        !seg.header.flags.has(TcpFlags::FIN),
    ensures
        carries(seg, base, stream + more),
{
    if seg.payload.len() > 0 {
        let off = choose|off: int| #[trigger] placed(seg, base, off, stream);
        let longer = stream + more;
        assert(seg.payload =~= longer.subrange(off - 1, off - 1 + seg.payload.len()));
        assert(placed(seg, base, off, longer));
    }
}

/// Two connections have the same send buffer content as far as the stream goes, the same
/// initial sequence number, and the second has the segments of the first ready for the
/// wire, and maybe more that carry neither bytes nor a FIN.
pub open spec fn extends(a: ConnectionView, b: ConnectionView) -> bool {
    &&& b.tcb.iss == a.tcb.iss
    &&& b.snd.origin == a.snd.origin
    &&& b.snd.una == a.snd.una
    &&& b.snd.end == a.snd.end
    &&& b.snd.data == a.snd.data
    &&& a.snd.fin_queued ==> b.snd.fin_queued
    &&& a.egress.len() <= b.egress.len()
    &&& forall|i: int| 0 <= i < a.egress.len() ==> #[trigger] b.egress[i] == a.egress[i]
    &&& forall|i: int|
        a.egress.len() <= i < b.egress.len() ==> (#[trigger] b.egress[i]).payload.len() == 0
            && !b.egress[i].header.flags.has(TcpFlags::FIN)
}

/// What extends a connection that sends a stream sends it too.
pub proof fn lemma_extends_sends(a: ConnectionView, b: ConnectionView, stream: Seq<u8>)
    requires
        sends(a, stream),
        extends(a, b),
    ensures
        sends(b, stream),
{
    assert forall|i: int| 0 <= i < b.egress.len() implies carries(
        #[trigger] b.egress[i],
        b.tcb.iss,
        stream,
    ) && (b.egress[i].header.flags.has(TcpFlags::FIN) ==> b.snd.fin_queued) by {
        if i < a.egress.len() {
            assert(b.egress[i] == a.egress[i]);
        }
    }
}

/// Extending is transitive.
pub proof fn lemma_extends_trans(a: ConnectionView, b: ConnectionView, c: ConnectionView)
    requires
        extends(a, b),
        extends(b, c),
    ensures
        extends(a, c),
{
    assert forall|i: int| 0 <= i < a.egress.len() implies #[trigger] c.egress[i]
        == a.egress[i] by {
        assert(c.egress[i] == b.egress[i]);
    }
    assert forall|i: int| a.egress.len() <= i < c.egress.len() implies (
    #[trigger] c.egress[i]).payload.len() == 0 && !c.egress[i].header.flags.has(TcpFlags::FIN) by {
        if i < b.egress.len() {
            assert(c.egress[i] == b.egress[i]);
        }
    }
}

/// Making an acknowledgment extends a connection.
pub proof fn lemma_acking_extends(c: ConnectionView, now: u64)
    ensures
        extends(c, c.acking(now)),
        extends(c, c.acking(now).waiting(now)),
        extends(c, c.waiting(now)),
        extends(c, c.shut()),
        extends(c, c.rearmed(now)),
        extends(c, c),
        extends(c, c.closed().0),
        extends(c, c.reset(now).0),
        forall|h: TcpHeader| extends(c, #[trigger] c.emitting(c.reset_reply(h))),
{
    TcpFlags::lemma_control(false, false, false, false, true);
    TcpFlags::lemma_control(false, false, true, false, false);
    TcpFlags::lemma_control(false, false, true, false, true);
}

/// Noting selective acknowledgments leaves the bytes of the send buffer alone.
pub proof fn lemma_sack_all_keeps(snd: SendBufferView, iss: u32, blocks: Seq<(u32, u32)>)
    ensures
        sack_all(snd, iss, blocks).origin == snd.origin,
        sack_all(snd, iss, blocks).una == snd.una,
        sack_all(snd, iss, blocks).nxt == snd.nxt,
        sack_all(snd, iss, blocks).end == snd.end,
        sack_all(snd, iss, blocks).data == snd.data,
        sack_all(snd, iss, blocks).fin_queued == snd.fin_queued,
    decreases blocks.len(),
{
    if blocks.len() > 0 {
        lemma_sack_all_keeps(sack_one(snd, iss, blocks[0]), iss, blocks.drop_first());
    }
}

/// A connection that sends a stream still sends it after everything that a header
/// acknowledges and announces was taken in.
pub proof fn lemma_acknowledged_sends(
    c: ConnectionView,
    now: u64,
    h: TcpHeader,
    len: int,
    stream: Seq<u8>,
)
    requires
        c.wf(),
        sends(c, stream),
        c.ack_delta(h) <= c.snd.in_flight(),
    ensures
        sends(c.acknowledged(now, h, len), stream),
        c.acknowledged(now, h, len).egress == c.egress,
        c.acknowledged(now, h, len).tcb.iss == c.tcb.iss,
        c.acknowledged(now, h, len).rcv == c.rcv,
        c.acknowledged(now, h, len).tcb.irs == c.tcb.irs,
        c.acknowledged(now, h, len).tcb.state == c.tcb.state,
{
    reveal(ConnectionView::acknowledged);
    reveal(ConnectionView::ack_taken);
    let a = c.ack_delta(h);
    let taken = c.ack_taken(now, h, len);
    if a > 0 {
        lemma_ack_agrees(c.snd, (c.snd.una + a) as u64, stream);
    }
    assert(taken.snd.agrees_with(stream));
    let noted = taken.sack_noted(h);
    match h.selective_acks {
        Some(blocks) => {
            lemma_sack_all_keeps(taken.snd, taken.tcb.iss, blocks@);
        },
        None => {},
    }
    assert(noted.snd.agrees_with(stream));
}

/// A connection that sends a stream still sends it after a segment arrived, whatever the
/// segment holds.
pub proof fn lemma_pushed_sends(
    c: ConnectionView,
    now: u64,
    h: TcpHeader,
    payload: Seq<u8>,
    stream: Seq<u8>,
)
    requires
        c.wf(),
        sends(c, stream),
    ensures
        sends(c.pushed(now, h, payload), stream),
{
    if c.owns(h) {
        if c.tcb.state == StateTag::SynSent {
            reveal(ConnectionView::pushed_syn_sent);
            let after = c.pushed_syn_sent(now, h);
            TcpFlags::lemma_control(false, false, false, false, true);
            TcpFlags::lemma_control(false, false, true, false, false);
            TcpFlags::lemma_control(false, true, false, false, true);
            assert(extends(c, after));
            lemma_extends_sends(c, after, stream);
        } else if c.tcb.state == StateTag::SynReceived {
            reveal(ConnectionView::pushed_syn_received);
            let after = c.pushed_syn_received(now, h, payload);
            lemma_acking_extends(c, now);
            if h.flags.has(TcpFlags::RST) || !h.flags.has(TcpFlags::ACK) || h.flags.has(
                TcpFlags::SYN,
            ) {
                assert(extends(c, after));
                lemma_extends_sends(c, after, stream);
            } else if !c.acks_syn(h) {
                assert(extends(c, after));
                lemma_extends_sends(c, after, stream);
            } else {
                let e = ConnectionView {
                    tcb: crate::connection::Tcb {
                        state: StateTag::Established,
                        was_established: true,
                        rto_deadline: None,
                        rtt: c.handshake_rtt(now),
                        snd_wnd: crate::connection::scaled_window(
                            h.window_size,
                            c.tcb.snd_wscale,
                        ),
                        snd_wl1: h.seq,
                        snd_wl2: h.ack,
                        ..c.tcb
                    },
                    ..c
                };
                assert(e.wf()) by {
                    crate::connection::lemma_scaled_window_bound(h.window_size, c.tcb.snd_wscale);
                }
                assert(extends(c, e));
                lemma_extends_sends(c, e, stream);
                lemma_synchronized_sends(e, now, h, payload, stream);
            }
        } else if c.tcb.state.is_synchronized() {
            lemma_synchronized_sends(c, now, h, payload, stream);
        }
    }
}

/// The case of [`lemma_pushed_sends`] in which the handshake is complete.
pub proof fn lemma_synchronized_sends(
    c: ConnectionView,
    now: u64,
    h: TcpHeader,
    payload: Seq<u8>,
    stream: Seq<u8>,
)
    requires
        c.wf(),
        sends(c, stream),
    ensures
        sends(c.pushed_synchronized(now, h, payload), stream),
{
    reveal(ConnectionView::pushed_synchronized);
    let after = c.pushed_synchronized(now, h, payload);
    lemma_acking_extends(c, now);
    if h.flags.has(TcpFlags::RST) {
        assert(extends(c, after));
        lemma_extends_sends(c, after, stream);
    } else if c.tcb.state == StateTag::TimeWait && h.flags.has(TcpFlags::FIN) {
        lemma_extends_sends(c, after, stream);
    } else if !c.acceptable(h, payload.len() as int) || h.flags.has(TcpFlags::SYN) {
        lemma_extends_sends(c, after, stream);
    } else if !h.flags.has(TcpFlags::ACK) {
    } else if c.ack_delta(h) > c.snd.in_flight() {
        lemma_extends_sends(c, after, stream);
    } else {
        let len = payload.len() as int;
        let a = c.acknowledged(now, h, len);
        lemma_acknowledged_sends(c, now, h, len, stream);
        let s = a.settled(now);
        let d = s.delivered(now, h, payload);
        let f = d.finished(now, h, len);
        lemma_settled_extends(a, now);
        lemma_delivered_extends(s, now, h, payload);
        lemma_finished_extends(d, now, h, len);
        lemma_extends_trans(a, s, d);
        lemma_extends_trans(a, d, f);
        lemma_extends_sends(a, f, stream);
    }
}

/// Looking whether the FIN is acknowledged extends a connection.
pub proof fn lemma_settled_extends(c: ConnectionView, now: u64)
    ensures
        extends(c, c.settled(now)),
{
    lemma_acking_extends(c, now);
}

/// Taking in the bytes of a segment extends a connection.
pub proof fn lemma_delivered_extends(c: ConnectionView, now: u64, h: TcpHeader, payload: Seq<u8>)
    ensures
        extends(c, c.delivered(now, h, payload)),
{
    reveal(ConnectionView::delivered);
    let x = ConnectionView { rcv: c.rcv.inserted(c.seq_delta(h), payload), ..c };
    lemma_acking_extends(x, now);
}

/// Taking in the FIN of a segment extends a connection.
pub proof fn lemma_finished_extends(c: ConnectionView, now: u64, h: TcpHeader, len: int)
    ensures
        extends(c, c.finished(now, h, len)),
{
    reveal(ConnectionView::finished);
    let x = if c.tcb.state.takes_data() && h.flags.has(TcpFlags::FIN) {
        ConnectionView {
            rcv: c.rcv.with_fin(crate::seq::seq_diff(seq_add(h.seq, len), c.rcv_nxt())),
            ..c
        }
    } else {
        c
    };
    lemma_acking_extends(x, now);
    let a = x.acking(now);
    assert(extends(x, a));
    assert(extends(a, a.waiting(now)));
}

/// A segment that carries bytes of the stream that a connection sends, and has no FIN
/// unless the stream is closed, can be added to the segments that are ready for the wire.
pub proof fn lemma_emitting_sends(c: ConnectionView, seg: SegmentView, stream: Seq<u8>)
    requires
        sends(c, stream),
        carries(seg, c.tcb.iss, stream),
        seg.header.flags.has(TcpFlags::FIN) ==> c.snd.fin_queued,
    ensures
        sends(c.emitting(seg), stream),
{
    let after = c.emitting(seg);
    assert forall|i: int| 0 <= i < after.egress.len() implies carries(
        #[trigger] after.egress[i],
        after.tcb.iss,
        stream,
    ) && (after.egress[i].header.flags.has(TcpFlags::FIN) ==> after.snd.fin_queued) by {
        if i < c.egress.len() {
            assert(after.egress[i] == c.egress[i]);
        }
    }
}

/// The next new segment of a connection that sends a stream carries bytes of the stream at
/// their places, and its FIN, if it has one, stands behind the last byte.
pub proof fn lemma_data_segment_carries(c: ConnectionView, now: u64, stream: Seq<u8>)
    requires
        c.wf(),
        c.snd.agrees_with(stream),
        c.snd.sendable(c.tcb.snd_wnd as int),
    ensures
        ({
            let o = c.snd.next_segment(c.tcb.snd_wnd as int, MSS as int);
            let seg = c.data_segment(now, o);
            &&& carries(seg, c.tcb.iss, stream)
            &&& seg.header.flags.has(TcpFlags::FIN) ==> c.snd.fin_queued
        }),
{
    lemma_segment_agrees(c.snd, c.tcb.snd_wnd as int, MSS as int, stream);
    let o = c.snd.next_segment(c.tcb.snd_wnd as int, MSS as int);
    let seg = c.data_segment(now, o);
    let psh = o.payload.len() > 0 && o.start + o.payload.len() == c.snd.end;
    TcpFlags::lemma_control(o.fin, false, false, psh, true);
    lemma_outgoing_carries(seg, c.tcb.iss, o, stream);
}

/// A segment with the bytes, the place and the FIN of `o`, which a connection takes from
/// its send buffer, carries bytes of the stream at their places, and its FIN, if it has
/// one, stands behind the last byte.
pub proof fn lemma_outgoing_carries(
    seg: SegmentView,
    base: u32,
    o: crate::send_buffer::OutgoingView,
    stream: Seq<u8>,
)
    requires
        seg.payload == o.payload,
        seg.header.seq == seq_add(base, o.start as int),
        seg.header.flags.has(TcpFlags::FIN) == o.fin,
        1 <= o.start,
        o.start - 1 + o.payload.len() <= stream.len(),
        o.payload == stream.subrange(o.start - 1, o.start - 1 + o.payload.len()),
        o.fin ==> o.start - 1 + o.payload.len() == stream.len(),
    ensures
        carries(seg, base, stream),
{
    assert(placed(seg, base, o.start as int, stream));
}

/// A connection that sends a stream still sends it after the host asked for a segment, and
/// the segment that the host gets carries bytes of the stream at their places.
pub proof fn lemma_popped_sends(c: ConnectionView, now: u64, stream: Seq<u8>)
    requires
        c.wf(),
        sends(c, stream),
    ensures
        sends(c.popped(now).0, stream),
        match c.popped(now).1 {
            Ok(seg) => carries(seg, c.tcb.iss, stream),
            Err(_) => true,
        },
{
    let after = c.popped(now).0;
    if c.egress.len() > 0 {
        assert forall|i: int| 0 <= i < after.egress.len() implies carries(
            #[trigger] after.egress[i],
            after.tcb.iss,
            stream,
        ) && (after.egress[i].header.flags.has(TcpFlags::FIN) ==> after.snd.fin_queued) by {
            assert(after.egress[i] == c.egress[i + 1]);
        }
        assert(carries(c.egress[0], c.tcb.iss, stream));
    } else if c.tcb.state.can_transmit() && c.snd.sendable(c.tcb.snd_wnd as int) {
        lemma_data_segment_carries(c, now, stream);
        assert(after.egress =~= c.egress);
    }
}

/// A connection that sends a stream still sends it after a timer fired.
pub proof fn lemma_timer_sends(c: ConnectionView, now: u64, t: Timer, stream: Seq<u8>)
    requires
        c.wf(),
        sends(c, stream),
    ensures
        sends(c.timer_fired(now, t), stream),
{
    let after = c.timer_fired(now, t);
    lemma_acking_extends(c, now);
    if c.timer_applies(t) {
        match t.kind {
            crate::timer::TimerKind::Retransmit => {
                lemma_retransmitted_sends(c, now, stream);
            },
            _ => {
                lemma_extends_sends(c, after, stream);
            },
        }
    }
}

/// The case of [`lemma_timer_sends`] in which the retransmission timer fires.
pub proof fn lemma_retransmitted_sends(c: ConnectionView, now: u64, stream: Seq<u8>)
    requires
        c.wf(),
        sends(c, stream),
    ensures
        sends(c.retransmitted(now), stream),
{
    reveal(ConnectionView::retransmitted);
    let after = c.retransmitted(now);
    lemma_acking_extends(c, now);
    if c.tcb.state.is_handshake() {
        TcpFlags::lemma_control(false, true, false, false, false);
        TcpFlags::lemma_control(false, true, false, false, true);
        assert(extends(c, after));
        lemma_extends_sends(c, after, stream);
    } else if c.snd.in_flight() == 0 {
        assert(extends(c, after));
        lemma_extends_sends(c, after, stream);
    } else {
        let x = ConnectionView {
            snd: c.snd.timed_out(now),
            tcb: crate::connection::Tcb { rtt: c.tcb.rtt.backed_off(), ..c.tcb },
            ..c
        };
        assert(extends(c, x));
        lemma_extends_sends(c, x, stream);
        match c.snd.retransmission() {
            Some(o) => {
                let seg = SegmentView {
                    header: x.header(
                        now,
                        TcpFlags::of_control(o.fin, false, false, false, true),
                        seq_add(x.tcb.iss, o.start as int),
                    ),
                    payload: o.payload,
                };
                TcpFlags::lemma_control(o.fin, false, false, false, true);
                lemma_retransmission_agrees(c.snd, stream);
                lemma_outgoing_carries(seg, c.tcb.iss, o, stream);
                lemma_emitting_sends(x, seg, stream);
                let y = x.emitting(seg);
                lemma_acking_extends(y, now);
                lemma_extends_sends(y, y.rearmed(now), stream);
            },
            None => {
                lemma_acking_extends(x, now);
                lemma_extends_sends(x, x.rearmed(now), stream);
            },
        }
    }
}

/// A connection that sends a stream sends the longer stream after the application handed
/// over more bytes: the stream with the bytes that were taken at its end.
pub proof fn lemma_sent_sends(c: ConnectionView, bytes: Seq<u8>, len: int, stream: Seq<u8>)
    requires
        c.wf(),
        sends(c, stream),
        0 <= len,
    ensures
        match c.send_result(bytes.len() as int, len) {
            Ok(n) => sends(c.sent(bytes, len), stream + bytes.take(n as int)),
            Err(_) => c.sent(bytes, len) == c,
        },
{
    match c.send_result(bytes.len() as int, len) {
        Ok(n) => {
            let taken = bytes.take(n as int);
            lemma_append_agrees(c.snd, taken, stream);
            let after = c.sent(bytes, len);
            assert forall|i: int| 0 <= i < after.egress.len() implies carries(
                #[trigger] after.egress[i],
                after.tcb.iss,
                stream + taken,
            ) && (after.egress[i].header.flags.has(TcpFlags::FIN) ==> after.snd.fin_queued) by {
                assert(after.egress[i] == c.egress[i]);
                lemma_carries_longer(c.egress[i], c.tcb.iss, stream, taken);
            }
        },
        Err(_) => {},
    }
}

/// A connection that sends a stream still sends it after the application closed it, asked
/// for received bytes, or had it reset.
pub proof fn lemma_application_sends(c: ConnectionView, now: u64, len: int, stream: Seq<u8>)
    requires
        c.wf(),
        sends(c, stream),
    ensures
        sends(c.closed().0, stream),
        sends(c.received(now, len), stream),
        sends(c.reset(now).0, stream),
{
    lemma_acking_extends(c, now);
    assert(extends(c, c.closed().0));
    lemma_extends_sends(c, c.closed().0, stream);
    match c.recv_result(len) {
        Ok(n) => {
            let d = ConnectionView { rcv: c.rcv.drained(n as int), ..c };
            lemma_acking_extends(d, now);
            assert(extends(c, d));
            lemma_extends_trans(c, d, c.received(now, len));
        },
        Err(_) => {},
    }
    lemma_extends_sends(c, c.received(now, len), stream);
    assert(extends(c, c.reset(now).0));
    lemma_extends_sends(c, c.reset(now).0, stream);
}

/// The segment with the header `h` and the bytes `payload` comes from a peer that sends
/// `stream` to the connection `c`: if it has bytes or a FIN, its sequence number stands for
/// an offset of the stream that is less than 2^30 away from what `c` expects next, its
/// bytes, fewer than 2^30, are the bytes of the stream from that offset on, and its FIN,
/// if it has one, stands at the end of the stream.
pub open spec fn arrives(c: ConnectionView, h: TcpHeader, payload: Seq<u8>, stream: Seq<u8>) -> bool {
    payload.len() > 0 || h.flags.has(TcpFlags::FIN) ==> exists|off: int| #[trigger]
        lands(c, h, payload, off, stream)
}

/// The segment with the header `h` and the bytes `payload` stands at the offset `off` of
/// the stream that the peer of `c` sends.
pub open spec fn lands(
    c: ConnectionView,
    h: TcpHeader,
    payload: Seq<u8>,
    off: int,
    stream: Seq<u8>,
) -> bool {
    &&& 1 <= off
    &&& h.seq == seq_add(c.tcb.irs, off)
    &&& -0x4000_0000 < off - c.rcv.nxt < 0x4000_0000
    &&& payload.len() < 0x4000_0000
    &&& off - 1 + payload.len() <= stream.len()
    &&& payload == stream.subrange(off - 1, off - 1 + payload.len())
    &&& h.flags.has(TcpFlags::FIN) ==> off - 1 + payload.len() == stream.len()
}

/// A connection whose receive buffer agrees with the stream that its peer sends still
/// agrees with it after a segment of that peer arrived. Before the peer's SYN has been
/// seen, nothing is taken in and any segment will do.
pub proof fn lemma_pushed_receives(
    c: ConnectionView,
    now: u64,
    h: TcpHeader,
    payload: Seq<u8>,
    stream: Seq<u8>,
)
    requires
        c.wf(),
        c.rcv.agrees_with(stream),
        c.tcb.state == StateTag::SynSent || arrives(c, h, payload, stream),
    ensures
        c.pushed(now, h, payload).rcv.agrees_with(stream),
{
    if c.owns(h) {
        if c.tcb.state == StateTag::SynSent {
            reveal(ConnectionView::pushed_syn_sent);
        } else if c.tcb.state == StateTag::SynReceived {
            reveal(ConnectionView::pushed_syn_received);
            if !(h.flags.has(TcpFlags::RST) || !h.flags.has(TcpFlags::ACK) || h.flags.has(
                TcpFlags::SYN,
            ) || !c.acks_syn(h)) {
                let e = ConnectionView {
                    tcb: crate::connection::Tcb {
                        state: StateTag::Established,
                        was_established: true,
                        rto_deadline: None,
                        rtt: c.handshake_rtt(now),
                        snd_wnd: crate::connection::scaled_window(
                            h.window_size,
                            c.tcb.snd_wscale,
                        ),
                        snd_wl1: h.seq,
                        snd_wl2: h.ack,
                        ..c.tcb
                    },
                    ..c
                };
                assert(e.wf()) by {
                    crate::connection::lemma_scaled_window_bound(h.window_size, c.tcb.snd_wscale);
                }
                if payload.len() > 0 || h.flags.has(TcpFlags::FIN) {
                    let off = choose|off: int| #[trigger] lands(c, h, payload, off, stream);
                    assert(lands(e, h, payload, off, stream));
                }
                lemma_synchronized_receives(e, now, h, payload, stream);
            }
        } else if c.tcb.state.is_synchronized() {
            lemma_synchronized_receives(c, now, h, payload, stream);
        }
    }
}

/// Taking in what a header acknowledges, and looking whether the FIN is acknowledged, leave
/// the receive buffer alone.
pub proof fn lemma_acknowledged_leaves_receive_buffer(
    c: ConnectionView,
    now: u64,
    h: TcpHeader,
    len: int,
)
    ensures
        c.acknowledged(now, h, len).rcv == c.rcv,
        c.acknowledged(now, h, len).tcb.irs == c.tcb.irs,
        c.acknowledged(now, h, len).settled(now).rcv == c.rcv,
        c.acknowledged(now, h, len).settled(now).tcb.irs == c.tcb.irs,
{
    reveal(ConnectionView::acknowledged);
    reveal(ConnectionView::ack_taken);
}

/// The step of [`lemma_synchronized_receives`] in which the bytes are taken in.
pub proof fn lemma_delivered_receives(
    c: ConnectionView,
    now: u64,
    h: TcpHeader,
    payload: Seq<u8>,
    off: int,
    stream: Seq<u8>,
)
    requires
        c.rcv.wf(),
        c.rcv.origin == 1,
        c.rcv.agrees_with(stream),
        lands(c, h, payload, off, stream),
    ensures
        c.delivered(now, h, payload).rcv.agrees_with(stream),
        c.delivered(now, h, payload).rcv.wf(),
        c.delivered(now, h, payload).rcv.origin == 1,
        c.delivered(now, h, payload).tcb.irs == c.tcb.irs,
        c.rcv.nxt <= c.delivered(now, h, payload).rcv.nxt <= c.rcv.nxt + c.rcv.window() + 1,
{
    reveal(ConnectionView::delivered);
    let len = payload.len() as int;
    lemma_diff_of_offsets(c.tcb.irs, off, c.rcv.nxt as int);
    assert(c.seq_delta(h) == off - c.rcv.nxt);
    if c.tcb.state.takes_data() && len > 0 {
        assert(segment_agrees(c.rcv, c.seq_delta(h), payload, stream)) by {
            assert forall|k: int| 0 <= k < payload.len() && c.rcv.origin <= off + k implies #[trigger] payload[k]
                == stream[off + k - c.rcv.origin] by {
                assert(payload[k] == stream.subrange(off - 1, off - 1 + len)[k]);
            }
        }
        lemma_insert_agrees(c.rcv, c.seq_delta(h), payload, stream);
        crate::recv_buffer::lemma_inserted_wf(c.rcv, c.seq_delta(h), payload);
        crate::recv_buffer::lemma_inserted_advances(c.rcv, c.seq_delta(h), payload);
    }
}

/// The step of [`lemma_synchronized_receives`] in which the FIN is taken in.
pub proof fn lemma_finished_receives(
    c: ConnectionView,
    now: u64,
    h: TcpHeader,
    len: int,
    off: int,
    stream: Seq<u8>,
)
    requires
        c.rcv.wf(),
        c.rcv.origin == 1,
        c.rcv.agrees_with(stream),
        1 <= off,
        0 <= len,
        h.seq == seq_add(c.tcb.irs, off),
        -0x8000_0000 <= off + len - c.rcv.nxt < 0x8000_0000,
        h.flags.has(TcpFlags::FIN) ==> off - 1 + len == stream.len(),
    ensures
        c.finished(now, h, len).rcv.agrees_with(stream),
{
    reveal(ConnectionView::finished);
    if c.tcb.state.takes_data() && h.flags.has(TcpFlags::FIN) {
        lemma_add_add(c.tcb.irs, off, len);
        lemma_diff_of_offsets(c.tcb.irs, off + len, c.rcv.nxt as int);
        let delta = crate::seq::seq_diff(seq_add(h.seq, len), c.rcv_nxt());
        assert(delta == off + len - c.rcv.nxt);
        if !(c.rcv.fin is Some || delta < 0 || c.rcv.nxt + delta > c.rcv.limit()
            || !crate::recv_buffer::within(c.rcv.blocks, c.rcv.nxt as int, c.rcv.nxt + delta)) {
            lemma_fin_agrees(c.rcv, delta, stream);
        }
    }
}

/// The case of [`lemma_pushed_receives`] in which the handshake is complete.
pub proof fn lemma_synchronized_receives(
    c: ConnectionView,
    now: u64,
    h: TcpHeader,
    payload: Seq<u8>,
    stream: Seq<u8>,
)
    requires
        c.wf(),
        c.rcv.agrees_with(stream),
        arrives(c, h, payload, stream),
    ensures
        c.pushed_synchronized(now, h, payload).rcv.agrees_with(stream),
{
    reveal(ConnectionView::pushed_synchronized);
    let len = payload.len() as int;
    if !h.flags.has(TcpFlags::RST) && !(c.tcb.state == StateTag::TimeWait && h.flags.has(
        TcpFlags::FIN,
    )) && c.acceptable(h, len) && !h.flags.has(TcpFlags::SYN) && h.flags.has(TcpFlags::ACK)
        && c.ack_delta(h) <= c.snd.in_flight() {
        lemma_acknowledged_leaves_receive_buffer(c, now, h, len);
        let s = c.acknowledged(now, h, len).settled(now);
        let d = s.delivered(now, h, payload);
        if len > 0 || h.flags.has(TcpFlags::FIN) {
            let off = choose|off: int| #[trigger] lands(c, h, payload, off, stream);
            assert(lands(s, h, payload, off, stream));
            lemma_delivered_receives(s, now, h, payload, off, stream);
            lemma_finished_receives(d, now, h, len, off, stream);
        } else {
            lemma_without_bytes_or_fin(s, now, h, payload);
        }
    }
}

/// A segment without bytes and without a FIN leaves the receive buffer alone.
pub proof fn lemma_without_bytes_or_fin(c: ConnectionView, now: u64, h: TcpHeader, payload: Seq<u8>)
    requires
        payload.len() == 0,
        !h.flags.has(TcpFlags::FIN),
    ensures
        c.delivered(now, h, payload).finished(now, h, 0).rcv == c.rcv,
{
    reveal(ConnectionView::delivered);
    reveal(ConnectionView::finished);
}

/// What the application takes out of a connection whose receive buffer agrees with the
/// stream that the peer sends is the part of the stream that follows what it has taken
/// before. So all that is ever taken out is, in order, a prefix of the stream, and the
/// stream is a prefix of all that the peer's application ever hands over.
pub proof fn lemma_recv_in_order(c: ConnectionView, now: u64, len: int, stream: Seq<u8>)
    requires
        c.wf(),
        c.rcv.agrees_with(stream),
        0 <= len,
        c.recv_result(len) is Ok,
    ensures
        ({
            let n = c.recv_result(len)->Ok_0 as int;
            &&& c.rcv.delivered() + n <= stream.len()
            &&& c.rcv.readable.take(n) == stream.subrange(c.rcv.delivered(), c.rcv.delivered() + n)
            &&& c.received(now, len).rcv.delivered() == c.rcv.delivered() + n
            &&& c.received(now, len).rcv.agrees_with(stream)
        }),
{
    let n = c.recv_result(len)->Ok_0 as int;
    lemma_drain_agrees(c.rcv, n, stream);
}

/// A connection's receive buffer is left alone by what the host and the application do
/// besides handing in segments and taking out bytes.
pub proof fn lemma_others_leave_receive_buffer(
    c: ConnectionView,
    now: u64,
    t: Timer,
    bytes: Seq<u8>,
    len: int,
)
    ensures
        c.popped(now).0.rcv == c.rcv,
        c.timer_fired(now, t).rcv == c.rcv,
        c.sent(bytes, len).rcv == c.rcv,
        c.closed().0.rcv == c.rcv,
        c.reset(now).0.rcv == c.rcv,
{
    reveal(ConnectionView::retransmitted);
}

/// The offsets of `stream` at which the segment `seg` can stand lie less than 2^30 away
/// from what the connection `r` expects next, and the segment has fewer than 2^30 bytes.
/// Sequence numbers repeat after 2^32 offsets, so a segment that has been under way while
/// the stream moved on further than this cannot be told from a new one.
pub open spec fn near(seg: SegmentView, r: ConnectionView, stream: Seq<u8>) -> bool {
    &&& seg.payload.len() < 0x4000_0000
    &&& forall|off: int| #[trigger]
        placed(seg, r.tcb.irs, off, stream) ==> -0x4000_0000 < off - r.rcv.nxt < 0x4000_0000
}

/// One hop of a stream: a segment that a connection that sends a stream hands out, taken
/// in by a peer whose receive buffer agrees with the stream, leaves that buffer in
/// agreement with the stream. With [`lemma_recv_in_order`], what the peer's application
/// takes out is a prefix of what the sender's application has put in.
pub proof fn lemma_hop(
    c: ConnectionView,
    r: ConnectionView,
    stream: Seq<u8>,
    sent_at: u64,
    arrived_at: u64,
)
    requires
        c.wf(),
        sends(c, stream),
        c.popped(sent_at).1 is Ok,
        r.wf(),
        r.tcb.state != StateTag::SynSent,
        r.tcb.irs == c.tcb.iss,
        r.rcv.agrees_with(stream),
        near(c.popped(sent_at).1->Ok_0, r, stream),
    ensures
        ({
            let seg = c.popped(sent_at).1->Ok_0;
            r.pushed(arrived_at, seg.header, seg.payload).rcv.agrees_with(stream)
        }),
{
    lemma_popped_sends(c, sent_at, stream);
    let seg = c.popped(sent_at).1->Ok_0;
    assert(carries(seg, r.tcb.irs, stream));
    if seg.payload.len() > 0 || seg.header.flags.has(TcpFlags::FIN) {
        if seg.header.flags.has(TcpFlags::FIN) {
            let off = choose|off: int| #[trigger]
                placed(seg, r.tcb.irs, off, stream) && off - 1 + seg.payload.len()
                    == stream.len();
            assert(lands(r, seg.header, seg.payload, off, stream));
        } else {
            let off = choose|off: int| #[trigger] placed(seg, r.tcb.irs, off, stream);
            assert(lands(r, seg.header, seg.payload, off, stream));
        }
    }
    lemma_pushed_receives(r, arrived_at, seg.header, seg.payload, stream);
}

/// A segment that arrives hands no bytes to the application: the number of bytes that the
/// application has taken stays, unless the segment ends the connection.
pub proof fn lemma_pushed_keeps_taken(c: ConnectionView, now: u64, h: TcpHeader, payload: Seq<u8>)
    requires
        c.wf(),
    ensures
        c.pushed(now, h, payload).rcv.delivered() == c.rcv.delivered() || c.pushed(
            now,
            h,
            payload,
        ).tcb.state == StateTag::Closed,
{
    if c.owns(h) {
        if c.tcb.state == StateTag::SynSent {
            reveal(ConnectionView::pushed_syn_sent);
        } else if c.tcb.state == StateTag::SynReceived {
            reveal(ConnectionView::pushed_syn_received);
            if !h.flags.has(TcpFlags::RST) && !h.flags.has(TcpFlags::SYN) && h.flags.has(
                TcpFlags::ACK,
            ) && c.acks_syn(h) {
                let e = ConnectionView {
                    tcb: crate::connection::Tcb {
                        state: StateTag::Established,
                        was_established: true,
                        rto_deadline: None,
                        rtt: c.handshake_rtt(now),
                        snd_wnd: crate::connection::scaled_window(
                            h.window_size,
                            c.tcb.snd_wscale,
                        ),
                        snd_wl1: h.seq,
                        snd_wl2: h.ack,
                        ..c.tcb
                    },
                    ..c
                };
                lemma_synchronized_keeps_taken(e, now, h, payload);
            }
        } else if c.tcb.state.is_synchronized() {
            lemma_synchronized_keeps_taken(c, now, h, payload);
        }
    }
}

/// The case of [`lemma_pushed_keeps_taken`] in which the handshake is complete.
pub proof fn lemma_synchronized_keeps_taken(
    c: ConnectionView,
    now: u64,
    h: TcpHeader,
    payload: Seq<u8>,
)
    requires
        c.rcv.wf(),
    ensures
        c.pushed_synchronized(now, h, payload).rcv.delivered() == c.rcv.delivered(),
{
    reveal(ConnectionView::pushed_synchronized);
    let len = payload.len() as int;
    if !h.flags.has(TcpFlags::RST) && !(c.tcb.state == StateTag::TimeWait && h.flags.has(
        TcpFlags::FIN,
    )) && c.acceptable(h, len) && !h.flags.has(TcpFlags::SYN) && h.flags.has(TcpFlags::ACK)
        && c.ack_delta(h) <= c.snd.in_flight() {
        lemma_acknowledged_leaves_receive_buffer(c, now, h, len);
        let s = c.acknowledged(now, h, len).settled(now);
        reveal(ConnectionView::delivered);
        reveal(ConnectionView::finished);
        crate::recv_buffer::lemma_inserted_keeps_taken(s.rcv, s.seq_delta(h), payload);
        crate::recv_buffer::lemma_inserted_wf(s.rcv, s.seq_delta(h), payload);
        let d = s.delivered(now, h, payload);
        crate::recv_buffer::lemma_fin_keeps_taken(
            d.rcv,
            crate::seq::seq_diff(seq_add(h.seq, len), d.rcv_nxt()),
        );
    }
}

} // verus!
