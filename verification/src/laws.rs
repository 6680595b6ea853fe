//! What holds of the engine in every state and for every input.
//!
//! Much of it holds of every well-formed state; that every state that the engine reaches
//! is well-formed is shown in [`crate::well_formed`].

use vstd::prelude::*;
use crate::connection::{wire_ranges, ConnectionView, StateTag};
use crate::header::SackBlocks;
use crate::header::TcpHeader;
use crate::flags::TcpFlags;
use crate::listen::{ListenView, position};
use crate::seq::{lemma_add_add, lemma_diff_of_offsets, seq_add, seq_le};
use crate::state::TcpView;
use crate::timer::{Timer, TimerRegisteredBy};

verus! {

/// On the sequence circle SND.UNA never lies behind SND.NXT, and SND.NXT never lies behind
/// the end of the send window, SND.UNA + SND.WND. During the handshake, while nothing but
/// the SYN is in flight, the second half holds once the window is known to be open.
pub proof fn lemma_send_sequence_in_window(c: ConnectionView)
    requires
        c.wf(),
    ensures
        seq_le(c.snd_una(), c.snd_nxt()),
        !c.tcb.state.is_handshake() || c.tcb.snd_wnd >= 1 ==> seq_le(
            c.snd_nxt(),
            seq_add(c.snd_una(), c.tcb.snd_wnd as int),
        ),
{
    let iss = c.tcb.iss;
    let una = c.snd.una as int;
    let nxt = c.snd.nxt as int;
    let wnd = c.tcb.snd_wnd as int;
    crate::send_buffer::lemma_tiles_ordered(c.snd.sent, una, nxt, c.snd.end as int, 0);
    if c.tcb.state.is_handshake() {
        assert(seq_add(iss, 0) == iss);
        lemma_diff_of_offsets(iss, 0, 1);
        lemma_add_add(iss, 0, wnd);
        lemma_diff_of_offsets(iss, 1, wnd);
    } else {
        lemma_diff_of_offsets(iss, una, nxt);
        lemma_add_add(iss, una, wnd);
        lemma_diff_of_offsets(iss, nxt, una + wnd);
    }
}

/// A header carries at most four selective acknowledgments: the blocks that grew last, the
/// last one first, as sequence numbers.
pub proof fn lemma_sack_capacity(c: ConnectionView)
    requires
        c.wf(),
    ensures
        match c.sack_option() {
            Some(blocks) => blocks@.len() <= 4 && blocks@ == wire_ranges(
                c.tcb.irs,
                c.rcv.sack_ranges(),
            ) && blocks@.len() > 0,
            None => true,
        },
{
    match c.sack_option() {
        Some(blocks) => {
            blocks.lemma_len();
            SackBlocks::lemma_of(wire_ranges(c.tcb.irs, c.rcv.sack_ranges()));
        },
        None => {},
    }
}

/// The accept queue of a listener never holds more connections than the backlog allows,
/// and neither do the queue and the connections whose handshake is going on together.
pub proof fn lemma_accept_queue_within_backlog(v: TcpView)
    requires
        v.wf(),
        v is Listen,
    ensures
        v->Listen_0.queue.len() <= v->Listen_0.backlog,
        v->Listen_0.queue.len() + v->Listen_0.pending.len() <= v->Listen_0.backlog,
{
}

/// A state that has reached the end stays there, whatever is done to it.
pub proof fn lemma_closed_is_terminal(
    v: TcpView,
    now: u64,
    h: TcpHeader,
    payload: Seq<u8>,
    t: Timer,
    by: TimerRegisteredBy,
    len: int,
)
    requires
        v.state() == StateTag::Closed,
    ensures
        v.closed().0.state() == StateTag::Closed,
        v.accepted().0.state() == StateTag::Closed,
        v.sent(payload, len).state() == StateTag::Closed,
        v.received(now, len).state() == StateTag::Closed,
        v.pushed(now, h, payload).state() == StateTag::Closed,
        v.popped(now).0.state() == StateTag::Closed,
        v.timer_fired(now, t, by).state() == StateTag::Closed,
        v.error_cleared().state() == StateTag::Closed,
        crate::state::listen_outcome::<(), ()>(v, 0, Ok(())).0.state() == StateTag::Closed,
        crate::state::connect_outcome::<(), ()>(v, now, h.source(), Ok((h.destination(), ()))).0.state()
            == StateTag::Closed,
{
}

/// A state that has something for the wire hands out a segment when it is asked.
pub proof fn lemma_wants_to_send_gives_a_segment(v: TcpView, now: u64)
    requires
        v.wf(),
        v.wants_to_send(),
    ensures
        v.popped(now).1 is Ok,
{
    match v {
        TcpView::Listen(l) => {
            let p = crate::listen::first_sender(l.pending, 0);
            let q = crate::listen::first_sender(l.queue, 0);
            lemma_first_sender(l.pending, 0);
            lemma_first_sender(l.queue, 0);
        },
        _ => {},
    }
}

/// The place that [`crate::listen::first_sender`] gives lies at or behind `from`, and the
/// connection there has something for the wire.
pub proof fn lemma_first_sender(children: Seq<ConnectionView>, from: int)
    requires
        0 <= from,
    ensures
        ({
            let i = crate::listen::first_sender(children, from);
            from <= i <= children.len() || (from > children.len() && i == children.len())
        }),
        crate::listen::first_sender(children, from) < children.len() ==> children[crate::listen::first_sender(
            children,
            from,
        )].wants_to_send(),
    decreases children.len() - from,
{
    if from < children.len() && !children[from].wants_to_send() {
        lemma_first_sender(children, from + 1);
    }
}

/// The place that [`position`] gives lies at or behind `from`.
pub proof fn lemma_position(
    children: Seq<ConnectionView>,
    local: crate::header::Endpoint,
    remote: crate::header::Endpoint,
    from: int,
)
    requires
        0 <= from,
    ensures
        from <= position(children, local, remote, from) || position(children, local, remote, from)
            == children.len(),
        position(children, local, remote, from) <= children.len() || from > children.len(),
    decreases children.len() - from,
{
    if from < children.len() && !(children[from].tcb.local == local && children[from].tcb.remote
        == remote) {
        lemma_position(children, local, remote, from + 1);
    }
}

/// A timer that fires when it does not apply any more changes nothing: the state stays as
/// it is and nothing is made ready for the wire.
pub proof fn lemma_stale_timer_changes_nothing(
    v: TcpView,
    now: u64,
    t: Timer,
    by: TimerRegisteredBy,
)
    requires
        v.wf(),
        !v.timer_applies(t, by),
    ensures
        v.timer_fired(now, t, by) == v,
{
    match (v, by) {
        (TcpView::Open(c), TimerRegisteredBy::Parent) => {
            assert(c.flushed().timers =~= c.timers);
        },
        (TcpView::Listen(l), TimerRegisteredBy::Child) => {
            lemma_position(l.queue, t.local, t.remote, 0);
            lemma_position(l.pending, t.local, t.remote, 0);
            let q = position(l.queue, t.local, t.remote, 0);
            let p = position(l.pending, t.local, t.remote, 0);
            if q < l.queue.len() {
                assert(l.queue[q].flushed().timers =~= l.queue[q].timers);
                assert(l.queue.update(q, l.queue[q]) =~= l.queue);
            } else if p < l.pending.len() {
                assert(l.pending[p].flushed().timers =~= l.pending[p].timers);
                assert(l.pending.update(p, l.pending[p]) =~= l.pending);
            }
        },
        _ => {},
    }
}

/// A reset whose sequence number lies outside the receive window is dropped: the connection
/// stays as it is, and no error is latched. This holds in every state in which there is a
/// receive window, that is from SYN-RECEIVED on.
pub proof fn lemma_reset_outside_window_is_dropped(
    c: ConnectionView,
    now: u64,
    h: TcpHeader,
    payload: Seq<u8>,
)
    requires
        c.tcb.state != StateTag::SynSent,
        h.flags.has(TcpFlags::RST),
        !c.in_window(h),
    ensures
        c.pushed(now, h, payload) == c,
{
    reveal(ConnectionView::pushed_synchronized);
    reveal(ConnectionView::pushed_syn_received);
}

/// A reset for a connection that waits at a listener is dropped in the same way if its
/// sequence number lies outside the receive window of that connection, and a reset for no
/// connection is dropped always.
pub proof fn lemma_listener_drops_reset_outside_window(
    l: ListenView,
    now: u64,
    h: TcpHeader,
    payload: Seq<u8>,
)
    requires
        l.wf(),
        h.flags.has(TcpFlags::RST),
        forall|i: int| 0 <= i < l.queue.len() ==> !(#[trigger] l.queue[i]).in_window(h),
        forall|i: int| 0 <= i < l.pending.len() ==> !(#[trigger] l.pending[i]).in_window(h),
    ensures
        l.pushed(now, h, payload) == l,
{
    lemma_position(l.queue, h.destination(), h.source(), 0);
    lemma_position(l.pending, h.destination(), h.source(), 0);
    let q = position(l.queue, h.destination(), h.source(), 0);
    let p = position(l.pending, h.destination(), h.source(), 0);
    if q < l.queue.len() {
        lemma_reset_outside_window_is_dropped(l.queue[q], now, h, payload);
        assert(l.queue[q].flushed().timers =~= l.queue[q].timers);
        assert(l.queue.update(q, l.queue[q]) =~= l.queue);
    } else if p < l.pending.len() {
        lemma_reset_outside_window_is_dropped(l.pending[p], now, h, payload);
        assert(l.pending[p].flushed().timers =~= l.pending[p].timers);
        assert(l.pending.update(p, l.pending[p]) =~= l.pending);
    }
}

/// A state drops a reset that lies outside the receive window of the connection that it is
/// for: nothing changes, and no error is latched. A connection in SYN-SENT has no receive
/// window yet; it takes a reset by its acknowledgment number instead.
pub proof fn lemma_state_drops_reset_outside_window(
    v: TcpView,
    now: u64,
    h: TcpHeader,
    payload: Seq<u8>,
)
    requires
        v.wf(),
        h.flags.has(TcpFlags::RST),
        match v {
            TcpView::Open(c) => c.tcb.state != StateTag::SynSent && !c.in_window(h),
            TcpView::Listen(l) => (forall|i: int|
                0 <= i < l.queue.len() ==> !(#[trigger] l.queue[i]).in_window(h)) && (forall|
                i: int,
            |
                0 <= i < l.pending.len() ==> !(#[trigger] l.pending[i]).in_window(h)),
            _ => true,
        },
    ensures
        v.pushed(now, h, payload) == v,
        v.pushed(now, h, payload).error() == v.error(),
{
    match v {
        TcpView::Open(c) => {
            lemma_reset_outside_window_is_dropped(c, now, h, payload);
            assert(c.flushed().timers =~= c.timers);
        },
        TcpView::Listen(l) => {
            lemma_listener_drops_reset_outside_window(l, now, h, payload);
        },
        _ => {},
    }
}

/// A `close` in SYN-RECEIVED, ESTABLISHED or CLOSE-WAIT is taken and leaves something to
/// send: the FIN is queued and has not been sent, and the connection wants to send as soon
/// as the send window has room behind what has been sent.
pub proof fn lemma_close_leaves_fin_to_send(c: ConnectionView)
    requires
        c.wf(),
        c.tcb.state == StateTag::SynReceived || c.tcb.state == StateTag::Established
            || c.tcb.state == StateTag::CloseWait,
    ensures
        c.closed().1 is Ok,
        c.closed().0.snd.fin_queued,
        !c.closed().0.snd.fin_sent(),
        c.closed().0.tcb.state.can_transmit(),
        c.closed().0.snd.nxt < c.closed().0.snd.una + c.closed().0.tcb.snd_wnd
            ==> c.closed().0.wants_to_send(),
{
}

/// After a `close` that was taken, a second `close` leaves the state at FIN-WAIT-1 or
/// beyond it.
pub proof fn lemma_double_close(v: TcpView)
    requires
        v.wf(),
        v.closed().1 is Ok,
    ensures
        v.closed().0.state().at_or_beyond_fin_wait_one(),
        v.closed().0.closed().0.state().at_or_beyond_fin_wait_one(),
{
}

/// Reading the latched error clears it: a second reading gives nothing, until another
/// error is latched.
pub proof fn lemma_error_is_read_once(v: TcpView)
    ensures
        v.error_cleared().error() is None,
        v.error_cleared().error_cleared() == v.error_cleared(),
{
}

} // verus!
