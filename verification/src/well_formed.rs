//! Well-formedness is an invariant: whatever is done to a well-formed connection, listener
//! or state leaves it well-formed. With it stay what well-formedness holds: the send
//! sequence within the send window, and the accept queue within the backlog.

use vstd::prelude::*;
use crate::connection::{
    lemma_scaled_window_bound,
    sack_all,
    sack_one,
    scaled_window,
    ConnectionView,
    StateTag,
    Tcb,
    MSS,
};
use crate::flags::TcpFlags;
use crate::header::{Endpoint, TcpHeader};
use crate::listen::{
    first_sender,
    lemma_with_pending_wf,
    lemma_with_queued_wf,
    position,
    ListenView,
};
use crate::laws::{lemma_first_sender, lemma_position};
use crate::send_buffer::SendBufferView;
use crate::state::{connect_outcome, listen_outcome, TcpView};
use crate::timer::{Timer, TimerRegisteredBy};

verus! {

/// Noting selective acknowledgments keeps a send buffer well-formed and leaves its bounds
/// alone.
pub proof fn lemma_sack_all_wf(snd: SendBufferView, iss: u32, blocks: Seq<(u32, u32)>)
    requires
        snd.wf(),
    ensures
        sack_all(snd, iss, blocks).wf(),
        sack_all(snd, iss, blocks).una == snd.una,
        sack_all(snd, iss, blocks).nxt == snd.nxt,
        sack_all(snd, iss, blocks).origin == snd.origin,
        sack_all(snd, iss, blocks).fin_queued == snd.fin_queued,
    decreases blocks.len(),
{
    if blocks.len() > 0 {
        let b = blocks[0];
        let una = crate::seq::seq_add(iss, snd.una as int);
        let lo = crate::seq::seq_diff(b.0, una);
        let hi = crate::seq::seq_diff(b.1, una);
        if 0 <= lo < hi <= snd.in_flight() {
            crate::send_buffer::lemma_marked_wf(
                snd,
                (snd.una + lo) as u64,
                (snd.una + hi) as u64,
                0,
            );
        }
        lemma_sack_all_wf(sack_one(snd, iss, b), iss, blocks.drop_first());
    }
}

/// Taking in what a header acknowledges and announces keeps a connection well-formed and
/// in its state.
pub proof fn lemma_acknowledged_wf(c: ConnectionView, now: u64, h: TcpHeader, len: int)
    requires
        c.wf(),
        !c.tcb.state.is_handshake(),
        c.ack_delta(h) <= c.snd.in_flight(),
    ensures
        c.acknowledged(now, h, len).wf(),
        c.acknowledged(now, h, len).tcb.state == c.tcb.state,
{
    reveal(ConnectionView::acknowledged);
    reveal(ConnectionView::ack_taken);
    let a = c.ack_delta(h);
    let t = c.ack_taken(now, h, len);
    if a > 0 {
        let ack = (c.snd.una + a) as u64;
        crate::send_buffer::lemma_acked_wf(c.snd, ack);
        match c.snd.round_trip_start(ack) {
            Some(at) => {
                c.tcb.rtt.lemma_stays_wf(crate::connection::elapsed(now, at));
            },
            None => {},
        }
    }
    assert(t.snd.fin_queued == c.snd.fin_queued);
    assert(t.tcb.state == c.tcb.state);
    assert(t.wf());
    let n = t.sack_noted(h);
    match h.selective_acks {
        Some(blocks) => {
            lemma_sack_all_wf(t.snd, t.tcb.iss, blocks@);
        },
        None => {},
    }
    assert(n.snd.fin_queued == c.snd.fin_queued);
    assert(n.tcb == t.tcb);
    assert(n.wf());
    let wnd = scaled_window(h.window_size, n.tcb.snd_wscale);
    lemma_scaled_window_bound(h.window_size, n.tcb.snd_wscale);
    crate::send_buffer::lemma_shrunk_wf(n.snd, wnd as int);
    let w = n.window_noted(h);
    assert(w.snd.fin_queued == c.snd.fin_queued);
    assert(w.tcb.state == c.tcb.state);
    assert(w.wf());
}

/// Looking whether the FIN is acknowledged, taking in the bytes of a segment and taking
/// in its FIN keep a connection well-formed.
pub proof fn lemma_taken_in_wf(c: ConnectionView, now: u64, h: TcpHeader, payload: Seq<u8>)
    requires
        c.wf(),
        !c.tcb.state.is_handshake(),
    ensures
        c.settled(now).wf(),
        !c.settled(now).tcb.state.is_handshake(),
        c.delivered(now, h, payload).wf(),
        c.delivered(now, h, payload).tcb.state == c.tcb.state,
        c.finished(now, h, payload.len() as int).wf(),
{
    reveal(ConnectionView::delivered);
    reveal(ConnectionView::finished);
    crate::recv_buffer::lemma_inserted_wf(c.rcv, c.seq_delta(h), payload);
    crate::recv_buffer::lemma_inserted_advances(c.rcv, c.seq_delta(h), payload);
    let delta = crate::seq::seq_diff(
        crate::seq::seq_add(h.seq, payload.len() as int),
        c.rcv_nxt(),
    );
    crate::recv_buffer::lemma_stays_wf(c.rcv, delta, 0);
}

/// A segment keeps a connection well-formed in the states from ESTABLISHED to LAST-ACK.
pub proof fn lemma_pushed_synchronized_wf(c: ConnectionView, now: u64, h: TcpHeader, payload: Seq<u8>)
    requires
        c.wf(),
        !c.tcb.state.is_handshake(),
    ensures
        c.pushed_synchronized(now, h, payload).wf(),
{
    reveal(ConnectionView::pushed_synchronized);
    let len = payload.len() as int;
    if !h.flags.has(TcpFlags::RST) && !(c.tcb.state == StateTag::TimeWait && h.flags.has(
        TcpFlags::FIN,
    )) && c.acceptable(h, len) && !h.flags.has(TcpFlags::SYN) && h.flags.has(TcpFlags::ACK)
        && c.ack_delta(h) <= c.snd.in_flight() {
        lemma_acknowledged_wf(c, now, h, len);
        let a = c.acknowledged(now, h, len);
        lemma_taken_in_wf(a, now, h, payload);
        let s = a.settled(now);
        lemma_taken_in_wf(s, now, h, payload);
        let d = s.delivered(now, h, payload);
        lemma_taken_in_wf(d, now, h, payload);
    }
}

/// A segment keeps a connection well-formed.
pub proof fn lemma_pushed_wf(c: ConnectionView, now: u64, h: TcpHeader, payload: Seq<u8>)
    requires
        c.wf(),
    ensures
        c.pushed(now, h, payload).wf(),
{
    if c.owns(h) {
        if c.tcb.state == StateTag::SynSent {
            reveal(ConnectionView::pushed_syn_sent);
            c.tcb.rtt.lemma_stays_wf(crate::connection::elapsed(now, c.tcb.opened_at));
        } else if c.tcb.state == StateTag::SynReceived {
            reveal(ConnectionView::pushed_syn_received);
            c.tcb.rtt.lemma_stays_wf(crate::connection::elapsed(now, c.tcb.opened_at));
            lemma_scaled_window_bound(h.window_size, c.tcb.snd_wscale);
            let e = ConnectionView {
                tcb: Tcb {
                    state: StateTag::Established,
                    was_established: true,
                    rto_deadline: None,
                    rtt: c.handshake_rtt(now),
                    snd_wnd: scaled_window(h.window_size, c.tcb.snd_wscale),
                    snd_wl1: h.seq,
                    snd_wl2: h.ack,
                    ..c.tcb
                },
                ..c
            };
            assert(e.wf());
            lemma_pushed_synchronized_wf(e, now, h, payload);
        } else if c.tcb.state.is_synchronized() {
            lemma_pushed_synchronized_wf(c, now, h, payload);
        }
    }
}

/// Handing out a segment keeps a connection well-formed and in its state.
pub proof fn lemma_popped_wf(c: ConnectionView, now: u64)
    requires
        c.wf(),
    ensures
        c.popped(now).0.wf(),
        c.popped(now).0.tcb.state == c.tcb.state,
{
    if c.egress.len() == 0 && c.tcb.state.can_transmit() && c.snd.sendable(
        c.tcb.snd_wnd as int,
    ) {
        crate::send_buffer::lemma_transmitted_wf(c.snd, c.tcb.snd_wnd as int, MSS as int, now);
    }
}

/// A timer keeps a connection well-formed.
pub proof fn lemma_timer_fired_wf(c: ConnectionView, now: u64, t: Timer)
    requires
        c.wf(),
    ensures
        c.timer_fired(now, t).wf(),
{
    reveal(ConnectionView::retransmitted);
    c.tcb.rtt.lemma_stays_wf(0);
    crate::send_buffer::lemma_marked_wf(c.snd, 0, 0, now);
}

/// What the application does keeps a connection well-formed.
pub proof fn lemma_application_wf(c: ConnectionView, now: u64, bytes: Seq<u8>, len: int)
    requires
        c.wf(),
        0 <= len,
    ensures
        c.closed().0.wf(),
        c.reset(now).0.wf(),
        c.sent(bytes, len).wf(),
        c.received(now, len).wf(),
{
    crate::send_buffer::lemma_appended_wf(c.snd, bytes);
    match c.send_result(bytes.len() as int, len) {
        Ok(n) => {
            crate::send_buffer::lemma_appended_wf(c.snd, bytes.take(n as int));
        },
        Err(_) => {},
    }
    match c.recv_result(len) {
        Ok(n) => {
            crate::recv_buffer::lemma_stays_wf(c.rcv, 0, n as int);
        },
        Err(_) => {},
    }
}

/// A connection that has just been opened, from either side, is well-formed.
pub proof fn lemma_opened_wf(now: u64, local: Endpoint, remote: Endpoint, h: TcpHeader)
    ensures
        ConnectionView::active(now, local, remote).wf(),
        ConnectionView::active(now, local, remote).tcb.state == StateTag::SynSent,
        ConnectionView::passive(now, h).wf(),
        ConnectionView::passive(now, h).tcb.state == StateTag::SynReceived,
{
}

/// Whatever is done to a well-formed listener leaves it well-formed, and so leaves its
/// accept queue, together with the connections whose handshake is going on, within the
/// backlog.
pub proof fn lemma_listener_stays_wf(l: ListenView, now: u64, h: TcpHeader, payload: Seq<u8>, t: Timer)
    requires
        l.wf(),
    ensures
        l.pushed(now, h, payload).wf(),
        l.popped(now).0.wf(),
        l.timer_fired(now, t).wf(),
        l.accepted().0.wf(),
{
    lemma_listener_pushed_wf(l, now, h, payload);
    lemma_listener_popped_wf(l, now);
    lemma_listener_timer_wf(l, now, t);
    let a = l.accepted().0;
    assert forall|i: int| 0 <= i < a.queue.len() implies {
        let c = #[trigger] a.queue[i];
        c.wf() && c.timers.len() == 0 && crate::listen::can_be_accepted(c.tcb.state)
    } by {
        assert(a.queue[i] == l.queue[i + 1]);
    }
}

/// The case of [`lemma_listener_stays_wf`] in which a segment arrives.
pub proof fn lemma_listener_pushed_wf(l: ListenView, now: u64, h: TcpHeader, payload: Seq<u8>)
    requires
        l.wf(),
    ensures
        l.pushed(now, h, payload).wf(),
{
    lemma_position(l.queue, h.destination(), h.source(), 0);
    lemma_position(l.pending, h.destination(), h.source(), 0);
    let q = position(l.queue, h.destination(), h.source(), 0);
    let p = position(l.pending, h.destination(), h.source(), 0);
    if q < l.queue.len() {
        lemma_pushed_wf(l.queue[q], now, h, payload);
        lemma_with_queued_wf(l, q, l.queue[q].pushed(now, h, payload).flushed());
    } else if p < l.pending.len() {
        lemma_pushed_wf(l.pending[p], now, h, payload);
        lemma_with_pending_wf(l, p, l.pending[p].pushed(now, h, payload).flushed());
    } else if !h.flags.has(TcpFlags::RST) && !h.flags.has(TcpFlags::ACK) && h.flags.has(
        TcpFlags::SYN,
    ) && l.pending.len() + l.queue.len() < l.backlog {
        lemma_opened_wf(now, h.destination(), h.source(), h);
        let after = l.pushed(now, h, payload);
        assert forall|i: int| 0 <= i < after.pending.len() implies {
            let c = #[trigger] after.pending[i];
            c.wf() && c.timers.len() == 0 && c.tcb.state == StateTag::SynReceived
        } by {
            if i < l.pending.len() {
                assert(after.pending[i] == l.pending[i]);
            }
        }
    }
}

/// The case of [`lemma_listener_stays_wf`] in which a segment is handed out.
pub proof fn lemma_listener_popped_wf(l: ListenView, now: u64)
    requires
        l.wf(),
    ensures
        l.popped(now).0.wf(),
{
    lemma_first_sender(l.pending, 0);
    lemma_first_sender(l.queue, 0);
    let p = first_sender(l.pending, 0);
    let q = first_sender(l.queue, 0);
    let after = l.popped(now).0;
    if l.egress.len() > 0 {
    } else if p < l.pending.len() {
        lemma_popped_wf(l.pending[p], now);
        assert forall|i: int| 0 <= i < after.pending.len() implies {
            let c = #[trigger] after.pending[i];
            c.wf() && c.timers.len() == 0 && c.tcb.state == StateTag::SynReceived
        } by {
            if i != p {
                assert(after.pending[i] == l.pending[i]);
            }
        }
    } else if q < l.queue.len() {
        lemma_popped_wf(l.queue[q], now);
        assert forall|i: int| 0 <= i < after.queue.len() implies {
            let c = #[trigger] after.queue[i];
            c.wf() && c.timers.len() == 0 && crate::listen::can_be_accepted(c.tcb.state)
        } by {
            if i != q {
                assert(after.queue[i] == l.queue[i]);
            }
        }
    }
}

/// The case of [`lemma_listener_stays_wf`] in which a timer fires.
pub proof fn lemma_listener_timer_wf(l: ListenView, now: u64, t: Timer)
    requires
        l.wf(),
    ensures
        l.timer_fired(now, t).wf(),
{
    lemma_position(l.queue, t.local, t.remote, 0);
    lemma_position(l.pending, t.local, t.remote, 0);
    let q = position(l.queue, t.local, t.remote, 0);
    let p = position(l.pending, t.local, t.remote, 0);
    if q < l.queue.len() {
        lemma_timer_fired_wf(l.queue[q], now, t);
        lemma_with_queued_wf(l, q, l.queue[q].timer_fired(now, t).flushed());
    } else if p < l.pending.len() {
        lemma_timer_fired_wf(l.pending[p], now, t);
        lemma_with_pending_wf(l, p, l.pending[p].timer_fired(now, t).flushed());
    }
}

/// Whatever is done to a well-formed state leaves it well-formed. So in every state that
/// the engine reaches, every connection has its send sequence within its send window, and
/// every listener has its accept queue within its backlog.
pub proof fn lemma_state_stays_wf(
    v: TcpView,
    now: u64,
    h: TcpHeader,
    payload: Seq<u8>,
    t: Timer,
    by: TimerRegisteredBy,
    len: int,
    backlog: u32,
    local: Endpoint,
    remote: Endpoint,
)
    requires
        v.wf(),
        0 <= len,
    ensures
        v.closed().0.wf(),
        v.accepted().0.wf(),
        v.accepted().1 is Ok ==> TcpView::Open(v.accepted().1->Ok_0).wf(),
        v.sent(payload, len).wf(),
        v.received(now, len).wf(),
        v.pushed(now, h, payload).wf(),
        v.popped(now).0.wf(),
        v.timer_fired(now, t, by).wf(),
        v.error_cleared().wf(),
        listen_outcome::<(), ()>(v, backlog, Ok(())).0.wf(),
        connect_outcome::<(), ()>(v, now, remote, Ok((local, ()))).0.wf(),
{
    match v {
        TcpView::Listen(l) => {
            lemma_listener_stays_wf(l, now, h, payload, t);
        },
        TcpView::Open(c) => {
            lemma_application_wf(c, now, payload, len);
            lemma_pushed_wf(c, now, h, payload);
            lemma_popped_wf(c, now);
            lemma_timer_fired_wf(c, now, t);
            lemma_flushed_wf(c.closed().0);
            lemma_flushed_wf(c.received(now, len));
            lemma_flushed_wf(c.pushed(now, h, payload));
            lemma_flushed_wf(c.popped(now).0);
            lemma_flushed_wf(c.timer_fired(now, t));
        },
        _ => {},
    }
    lemma_opened_wf(now, local, remote, h);
    lemma_flushed_wf(ConnectionView::active(now, local, remote));
}

/// A well-formed connection whose timers have been handed over is a well-formed state.
pub proof fn lemma_flushed_wf(c: ConnectionView)
    requires
        c.wf(),
    ensures
        TcpView::of_connection(c).wf(),
{
}

} // verus!
