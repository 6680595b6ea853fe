//! The three-way handshake, move by move, and what it leaves: two established connections
//! that are in step with each other. With it, the round trip of the engine: what the one
//! side sends after a handshake is what the other side receives.

use vstd::prelude::*;
use crate::connection::{
    fresh_tcb,
    instant_after,
    negotiated,
    ConnectionView,
    SegmentView,
    StateTag,
    Tcb,
    RECV_CAPACITY,
    SEND_CAPACITY,
    WINDOW_SHIFT,
};
use crate::flags::TcpFlags;
use crate::header::{Endpoint, TcpHeader};
use crate::recv_buffer::RecvBufferView;
use crate::send_buffer::SendBufferView;
use crate::seq::seq_add;
use crate::transfer::{
    exchanged,
    lemma_exchanged,
    lemma_quiet_acknowledged,
    lemma_sent_in_step,
    paired,
};

verus! {

/// A connection that has nothing in its buffers, nothing for the wire and no timers to
/// set, with the control block `tcb`.
pub open spec fn blank(tcb: Tcb) -> ConnectionView {
    ConnectionView {
        tcb,
        snd: SendBufferView::empty(1, SEND_CAPACITY),
        rcv: RecvBufferView::empty(1, RECV_CAPACITY),
        egress: Seq::empty(),
        timers: Seq::empty(),
    }
}

/// The first move of a handshake: a connection is opened from `local` to `remote` at the
/// time `t0`, and its SYN goes on the wire at the time `t1`.
pub open spec fn opened(t0: u64, t1: u64, local: Endpoint, remote: Endpoint) -> (
    ConnectionView,
    SegmentView,
) {
    let c = ConnectionView::active(t0, local, remote).flushed();
    (c.popped(t1).0, c.popped(t1).1->Ok_0)
}

/// The second move: the SYN with the header `syn` opens a connection at the time `t2`,
/// and the SYN that answers it goes on the wire at the time `t3`.
pub open spec fn answered(t2: u64, t3: u64, syn: TcpHeader) -> (ConnectionView, SegmentView) {
    let s = ConnectionView::passive(t2, syn).flushed();
    (s.popped(t3).0, s.popped(t3).1->Ok_0)
}

/// The third move: the connection `c` takes in the answer `syn_ack` at the time `t4`, and
/// its acknowledgment goes on the wire at the time `t5`.
pub open spec fn confirmed(c: ConnectionView, t4: u64, t5: u64, syn_ack: SegmentView) -> (
    ConnectionView,
    SegmentView,
) {
    let e = c.pushed(t4, syn_ack.header, syn_ack.payload).flushed();
    (e.popped(t5).0, e.popped(t5).1->Ok_0)
}

/// The two connections after a three-way handshake between `local`, which opens, and
/// `remote`, which answers. The moves happen at the times `clock(0)` to `clock(6)`.
pub open spec fn handshake(clock: spec_fn(nat) -> u64, local: Endpoint, remote: Endpoint) -> (
    ConnectionView,
    ConnectionView,
) {
    let (c1, syn) = opened(clock(0), clock(1), local, remote);
    let (s1, syn_ack) = answered(clock(2), clock(3), syn.header);
    let (c3, ack) = confirmed(c1, clock(4), clock(5), syn_ack);
    (c3, s1.pushed(clock(6), ack.header, ack.payload).flushed())
}

/// What the first move of a handshake leaves.
pub proof fn lemma_opened(t0: u64, t1: u64, local: Endpoint, remote: Endpoint)
    ensures
        ({
            let (c, syn) = opened(t0, t1, local, remote);
            let tcb = fresh_tcb(StateTag::SynSent, t0, local, remote);
            &&& c == blank(Tcb { rto_deadline: Some(instant_after(t0, 1000)), ..tcb })
            &&& c.wf()
            &&& syn.header == blank(tcb).syn_header(t0, false)
            &&& syn.payload.len() == 0
        }),
{
    let tcb = fresh_tcb(StateTag::SynSent, t0, local, remote);
    let a = ConnectionView::active(t0, local, remote);
    let f = a.flushed();
    assert(f.egress.len() == 1);
    let (c, syn) = opened(t0, t1, local, remote);
    assert(c.egress =~= Seq::<SegmentView>::empty());
    assert(c.timers =~= Seq::<crate::timer::Timer>::empty());
}

/// What the second move of a handshake leaves.
pub proof fn lemma_answered(t2: u64, t3: u64, syn: TcpHeader)
    ensures
        ({
            let (s, syn_ack) = answered(t2, t3, syn);
            let tcb = negotiated(
                fresh_tcb(StateTag::SynReceived, t2, syn.destination(), syn.source()),
                syn,
            );
            &&& s == blank(Tcb { rto_deadline: Some(instant_after(t2, 1000)), ..tcb })
            &&& s.wf()
            &&& syn_ack.header == blank(tcb).syn_header(t2, true)
            &&& syn_ack.payload.len() == 0
        }),
{
    let a = ConnectionView::passive(t2, syn);
    let f = a.flushed();
    assert(f.egress.len() == 1);
    let (s, syn_ack) = answered(t2, t3, syn);
    assert(s.egress =~= Seq::<SegmentView>::empty());
    assert(s.timers =~= Seq::<crate::timer::Timer>::empty());
}

/// The header of the SYN of a connection that is opened from `local` to `remote` at the
/// time `t0`.
pub open spec fn syn_of(t0: u64, local: Endpoint, remote: Endpoint) -> TcpHeader {
    blank(fresh_tcb(StateTag::SynSent, t0, local, remote)).syn_header(t0, false)
}

/// The control block of the connection that the SYN with the header `syn` opens at the
/// time `t2`.
pub open spec fn answering_tcb(t2: u64, syn: TcpHeader) -> Tcb {
    negotiated(fresh_tcb(StateTag::SynReceived, t2, syn.destination(), syn.source()), syn)
}

/// The header of the SYN that answers the SYN with the header `syn` at the time `t2`.
pub open spec fn syn_ack_of(t2: u64, syn: TcpHeader) -> TcpHeader {
    blank(answering_tcb(t2, syn)).syn_header(t2, true)
}

/// What the header of the SYN that answers a first SYN holds.
pub proof fn lemma_syn_ack_of(t0: u64, t2: u64, local: Endpoint, remote: Endpoint)
    ensures
        ({
            let h = syn_ack_of(t2, syn_of(t0, local, remote));
            &&& h.source() == remote
            &&& h.destination() == local
            &&& h.flags.has(TcpFlags::ACK)
            &&& h.flags.has(TcpFlags::SYN)
            &&& !h.flags.has(TcpFlags::RST)
            &&& h.seq == crate::connection::initial_sequence(t2)
            &&& h.ack == seq_add(crate::connection::initial_sequence(t0), 1)
            &&& h.window_size == 65535
            &&& h.window_scale == Some(WINDOW_SHIFT)
        }),
{
    TcpFlags::lemma_control(false, true, false, false, true);
}

/// What taking in the answer to its SYN leaves of a connection in SYN-SENT with empty
/// buffers: an established connection, and its acknowledgment ready for the wire.
pub proof fn lemma_taken_syn_ack(c: ConnectionView, now: u64, h: TcpHeader)
    requires
        c.wf(),
        c.tcb.state == StateTag::SynSent,
        c.snd == SendBufferView::empty(1, SEND_CAPACITY),
        c.rcv == RecvBufferView::empty(1, RECV_CAPACITY),
        c.egress.len() == 0,
        c.owns(h),
        h.flags.has(TcpFlags::ACK),
        h.flags.has(TcpFlags::SYN),
        !h.flags.has(TcpFlags::RST),
        h.ack == seq_add(c.tcb.iss, 1),
        h.window_scale == Some(WINDOW_SHIFT),
    ensures
        ({
            let p = c.pushed(now, h, Seq::empty());
            &&& p.wf()
            &&& p.tcb.state == StateTag::Established
            &&& p.tcb.local == c.tcb.local
            &&& p.tcb.remote == c.tcb.remote
            &&& p.tcb.iss == c.tcb.iss
            &&& p.tcb.irs == h.seq
            &&& p.tcb.snd_wnd == h.window_size
            &&& p.tcb.snd_wl1 == h.seq
            &&& p.tcb.snd_wscale == WINDOW_SHIFT
            &&& p.snd == c.snd
            &&& p.rcv == c.rcv
            &&& p.egress.len() == 1
            &&& p.egress[0].payload.len() == 0
            &&& p.egress[0].header.source() == c.tcb.local
            &&& p.egress[0].header.destination() == c.tcb.remote
            &&& p.egress[0].header.flags == TcpFlags::of_control(false, false, false, false, true)
            &&& p.egress[0].header.seq == seq_add(c.tcb.iss, 1)
            &&& p.egress[0].header.ack == seq_add(h.seq, 1)
            &&& p.egress[0].header.selective_acks is None
            &&& p.egress[0].header.window_size == 32768
        }),
{
    reveal(ConnectionView::pushed_syn_sent);
    TcpFlags::lemma_control(false, false, false, false, true);
    assert(c.acks_syn(h));
    let p = c.pushed(now, h, Seq::empty());
    assert(p == c.pushed_syn_sent(now, h));
    let tcb = negotiated(c.tcb, h);
    let e = ConnectionView {
        tcb: Tcb {
            state: StateTag::Established,
            was_established: true,
            rto_deadline: None,
            rtt: c.handshake_rtt(now),
            ..tcb
        },
        ..c
    };
    assert(p == e.acking(now));
    assert(e.rcv.window() == 262144);
    assert(e.advertised() == 32768);
}

/// What the third move of a handshake leaves on the side that opened: an established
/// connection with empty buffers that knows the peer's initial sequence number and window,
/// and an acknowledgment of the peer's SYN.
pub proof fn lemma_confirmed(
    t0: u64,
    t2: u64,
    t4: u64,
    t5: u64,
    local: Endpoint,
    remote: Endpoint,
)
    ensures
        ({
            let syn = syn_of(t0, local, remote);
            let before = blank(
                Tcb {
                    rto_deadline: Some(instant_after(t0, 1000)),
                    ..fresh_tcb(StateTag::SynSent, t0, local, remote)
                },
            );
            let syn_ack = SegmentView { header: syn_ack_of(t2, syn), payload: Seq::empty() };
            let (c, ack) = confirmed(before, t4, t5, syn_ack);
            &&& c.wf()
            &&& c.tcb.state == StateTag::Established
            &&& c.tcb.local == local
            &&& c.tcb.remote == remote
            &&& c.tcb.iss == crate::connection::initial_sequence(t0)
            &&& c.tcb.irs == crate::connection::initial_sequence(t2)
            &&& c.tcb.snd_wnd == 65535
            &&& c.tcb.snd_wl1 == c.tcb.irs
            &&& c.tcb.snd_wscale == WINDOW_SHIFT
            &&& c.snd == SendBufferView::empty(1, SEND_CAPACITY)
            &&& c.rcv == RecvBufferView::empty(1, RECV_CAPACITY)
            &&& c.egress.len() == 0
            &&& ack.payload.len() == 0
            &&& ack.header.source() == local
            &&& ack.header.destination() == remote
            &&& ack.header.flags.has(TcpFlags::ACK)
            &&& !ack.header.flags.has(TcpFlags::RST)
            &&& !ack.header.flags.has(TcpFlags::SYN)
            &&& !ack.header.flags.has(TcpFlags::FIN)
            &&& ack.header.seq == seq_add(c.tcb.iss, 1)
            &&& ack.header.ack == seq_add(c.tcb.irs, 1)
            &&& ack.header.selective_acks is None
            &&& ack.header.window_size == 32768
        }),
{
    let syn = syn_of(t0, local, remote);
    let before = blank(
        Tcb {
            rto_deadline: Some(instant_after(t0, 1000)),
            ..fresh_tcb(StateTag::SynSent, t0, local, remote)
        },
    );
    let h = syn_ack_of(t2, syn);
    lemma_syn_ack_of(t0, t2, local, remote);
    lemma_taken_syn_ack(before, t4, h);
    TcpFlags::lemma_control(false, false, false, false, true);
    let p = before.pushed(t4, h, Seq::empty());
    let (c, ack) = confirmed(before, t4, t5, SegmentView { header: h, payload: Seq::empty() });
    assert(c.egress =~= Seq::<SegmentView>::empty());
    assert(ack == p.egress[0]);
}

/// What a three-way handshake leaves: two established connections that are in step, each
/// way, with empty streams. The side that opened has a send window of 65535 bytes.
pub proof fn lemma_handshake(clock: spec_fn(nat) -> u64, local: Endpoint, remote: Endpoint)
    ensures
        ({
            let (c, r) = handshake(clock, local, remote);
            &&& paired(c, r, Seq::empty())
            &&& c.snd == SendBufferView::empty(1, SEND_CAPACITY)
            &&& c.tcb.snd_wnd == 65535
            &&& c.tcb.snd_wl1 == r.tcb.iss
            &&& r.rcv == RecvBufferView::empty(1, RECV_CAPACITY)
            &&& r.snd.nxt == 1
            &&& r.egress.len() == 0
            &&& r.tcb.ack_owed == 0
        }),
{
    let t0 = clock(0);
    let t2 = clock(2);
    lemma_opened(t0, clock(1), local, remote);
    let (c1, syn) = opened(t0, clock(1), local, remote);
    lemma_answered(t2, clock(3), syn.header);
    let (s1, syn_ack) = answered(t2, clock(3), syn.header);
    lemma_confirmed(t0, t2, clock(4), clock(5), local, remote);
    assert(syn_ack.payload =~= Seq::<u8>::empty());
    assert(syn_ack == (SegmentView { header: syn_ack_of(t2, syn.header), payload: Seq::empty() }));
    let (c3, ack) = confirmed(c1, clock(4), clock(5), syn_ack);
    lemma_completed(s1, clock(6), ack.header, ack.payload, c3.tcb.iss);
    let r = s1.pushed(clock(6), ack.header, ack.payload).flushed();
    let none = Seq::<u8>::empty();
    assert(c3.snd.data =~= none.subrange(c3.snd.data_start() - c3.snd.origin, 0));
    assert(r.rcv.readable =~= none.subrange(r.rcv.delivered(), r.rcv.received()));
}

/// What the last move of a handshake leaves on the side that answered: an established
/// connection with empty buffers.
pub proof fn lemma_completed(
    s: ConnectionView,
    now: u64,
    h: TcpHeader,
    payload: Seq<u8>,
    peer_iss: u32,
)
    requires
        s.wf(),
        s.tcb.state == StateTag::SynReceived,
        s.tcb.irs == peer_iss,
        s.snd == SendBufferView::empty(1, SEND_CAPACITY),
        s.rcv == RecvBufferView::empty(1, RECV_CAPACITY),
        s.egress.len() == 0,
        payload.len() == 0,
        s.owns(h),
        h.flags.has(TcpFlags::ACK),
        !h.flags.has(TcpFlags::RST),
        !h.flags.has(TcpFlags::SYN),
        !h.flags.has(TcpFlags::FIN),
        h.seq == seq_add(peer_iss, 1),
        h.ack == seq_add(s.tcb.iss, 1),
        h.selective_acks is None,
    ensures
        ({
            let r = s.pushed(now, h, payload).flushed();
            &&& r.wf()
            &&& r.tcb.state == StateTag::Established
            &&& r.tcb.local == s.tcb.local
            &&& r.tcb.remote == s.tcb.remote
            &&& r.tcb.iss == s.tcb.iss
            &&& r.tcb.irs == s.tcb.irs
            &&& r.snd.una == 1
            &&& r.snd.nxt == 1
            &&& r.snd.end == 1
            &&& !r.snd.fin_queued
            &&& r.rcv == RecvBufferView::empty(1, RECV_CAPACITY)
            &&& r.egress.len() == 0
            &&& r.tcb.ack_owed == s.tcb.ack_owed
            &&& r.tcb.rcv_wscale == s.tcb.rcv_wscale
        }),
{
    reveal(ConnectionView::pushed_syn_received);
    reveal(ConnectionView::pushed_synchronized);
    reveal(ConnectionView::delivered);
    reveal(ConnectionView::finished);
    crate::connection::lemma_scaled_window_bound(h.window_size, s.tcb.snd_wscale);
    let e = ConnectionView {
        tcb: Tcb {
            state: StateTag::Established,
            was_established: true,
            rto_deadline: None,
            rtt: s.handshake_rtt(now),
            snd_wnd: crate::connection::scaled_window(h.window_size, s.tcb.snd_wscale),
            snd_wl1: h.seq,
            snd_wl2: h.ack,
            ..s.tcb
        },
        ..s
    };
    assert(s.acks_syn(h));
    assert(e.wf());
    assert(e.seq_delta(h) == 0);
    assert(e.ack_delta(h) == 0);
    assert(e.acceptable(h, 0));
    lemma_quiet_acknowledged(e, now, h, 0);
    let a = e.acknowledged(now, h, 0).settled(now);
    assert(s.pushed(now, h, payload) == a.delivered(now, h, payload).finished(now, h, 0));
}

/// After a three-way handshake, bytes that the one side sends with one call of `send` are
/// what `recv` gives on the other side, once the segments have been carried over, each way
/// in the order in which they were handed out.
///
/// This holds for at least one byte, as `recv` gives an error when nothing was sent, and
/// for as many bytes as the buffers hold: one call of `send` takes no more.
pub proof fn lemma_handshake_then_transfer(
    clock: spec_fn(nat) -> u64,
    local: Endpoint,
    remote: Endpoint,
    bytes: Seq<u8>,
)
    requires
        0 < bytes.len() <= RECV_CAPACITY,
    ensures
        ({
            let n = bytes.len() as int;
            let (c, r) = handshake(clock, local, remote);
            let (c2, r2) = exchanged(c.sent(bytes, n), r, |i: nat| clock(i + 7), bytes.len());
            &&& c.send_result(n, n) == Ok::<usize, crate::error::SendError>(n as usize)
            &&& r2.recv_result(n) == Ok::<usize, crate::error::RecvError>(n as usize)
            &&& r2.rcv.readable.take(n) == bytes
        }),
{
    let n = bytes.len() as int;
    let later = |i: nat| clock(i + 7);
    lemma_handshake(clock, local, remote);
    let (c, r) = handshake(clock, local, remote);
    let none = Seq::<u8>::empty();
    lemma_sent_in_step(c, r, none, bytes);
    assert(none + bytes =~= bytes);
    let c0 = c.sent(bytes, n);
    crate::seq::lemma_diff_of_offsets(r.tcb.iss, 0, 1);
    assert(seq_add(r.tcb.iss, 0) == r.tcb.iss);
    lemma_exchanged(c0, r, bytes, later, bytes.len());
    let (c2, r2) = exchanged(c0, r, later, bytes.len());
    assert(bytes.subrange(0, n) =~= bytes);
    assert(r2.rcv.readable =~= bytes);
    assert(bytes.take(n) =~= bytes);
}

} // verus!
