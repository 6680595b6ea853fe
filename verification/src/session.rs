//! A whole session between two states: one connects to a listener, the listener's
//! application accepts the connection, the first sends bytes, the host carries every
//! segment from the state that hands it out to the other one, and the application of the
//! accepted connection reads. What it reads is what was sent.

use vstd::prelude::*;
use crate::connection::{ConnectionView, SegmentView, StateTag, MSS, RECV_CAPACITY};
use crate::error::{RecvError, SendError};
use crate::handshake::{
    answered,
    confirmed,
    handshake,
    lemma_answered,
    lemma_confirmed,
    lemma_handshake,
    lemma_opened,
    opened,
    syn_ack_of,
};
use crate::header::Endpoint;
use crate::listen::{first_sender, position, ListenView};
use crate::seq::seq_add;
use crate::state::{connect_outcome, listen_outcome, TcpView};
use crate::transfer::{
    acks_waiting,
    exchanged,
    in_full_segments,
    in_step,
    lemma_edge_stays,
    lemma_exchanged,
    lemma_first_ack_is_newer,
    lemma_pumped,
    lemma_pumped_acks,
    lemma_return_step,
    lemma_returned,
    lemma_sent_in_step,
    lemma_step,
    on_grid,
    paired,
    pumped,
    returned,
    right_edge,
    stepped,
};

verus! {

/// The host carries segments from `a` to `b`: as long as `a` hands out a segment, and at
/// most `fuel` times, `b` takes it in. The step `i` before the last happens at the times
/// `clock(2 * i + 1)`, at which `a` is asked, and `clock(2 * i)`, at which the segment
/// arrives.
pub open spec fn relayed(a: TcpView, b: TcpView, clock: spec_fn(nat) -> u64, fuel: nat) -> (
    TcpView,
    TcpView,
)
    decreases fuel,
{
    if fuel == 0 {
        (a, b)
    } else {
        match a.popped(clock(2 * fuel + 1)).1 {
            Ok(seg) => relayed(
                a.popped(clock(2 * fuel + 1)).0,
                b.pushed(clock(2 * fuel), seg.header, seg.payload),
                clock,
                (fuel - 1) as nat,
            ),
            Err(_) => (a, b),
        }
    }
}

/// The host carries what `a` has for `b`, then what `b` has for `a`, then once more what
/// `a` has for `b`, each time up to `fuel` segments, at times of `clock`.
pub open spec fn conversed(a: TcpView, b: TcpView, clock: spec_fn(nat) -> u64, fuel: nat) -> (
    TcpView,
    TcpView,
) {
    let (a1, b1) = relayed(a, b, |i: nat| clock(3 * i), fuel);
    let (b2, a2) = relayed(b1, a1, |i: nat| clock(3 * i + 1), fuel);
    relayed(a2, b2, |i: nat| clock(3 * i + 2), fuel)
}

/// Between states that hold connections in step, carrying the segments of the sender over
/// is a transfer between the connections.
pub proof fn lemma_relayed_transfer(
    c: ConnectionView,
    r: ConnectionView,
    stream: Seq<u8>,
    clock: spec_fn(nat) -> u64,
    fuel: nat,
)
    requires
        in_step(c, r, stream),
    ensures
        relayed(TcpView::Open(c), TcpView::Open(r), clock, fuel) == (
            TcpView::Open(pumped(c, r, clock, fuel).0),
            TcpView::Open(pumped(c, r, clock, fuel).1),
        ),
    decreases fuel,
{
    if fuel == 0 || !c.snd.sendable(c.tcb.snd_wnd as int) {
    } else {
        lemma_step(c, r, stream, clock(2 * fuel + 1), clock(2 * fuel));
        let (c1, r1) = stepped(c, r, clock(2 * fuel + 1), clock(2 * fuel));
        lemma_relayed_transfer(c1, r1, stream, clock, (fuel - 1) as nat);
    }
}

/// Between states that hold paired connections, carrying the acknowledgments of the
/// receiver back is the way back between the connections.
pub proof fn lemma_relayed_acks(
    c: ConnectionView,
    r: ConnectionView,
    stream: Seq<u8>,
    ps: Seq<int>,
    clock: spec_fn(nat) -> u64,
    fuel: nat,
)
    requires
        paired(c, r, stream),
        acks_waiting(r, ps, c.snd.una as int),
        fuel >= ps.len(),
        c.snd.end + 8 <= right_edge(r) || on_grid(r, ps),
        ps.len() > 0 ==> c.updates_window(r.egress[0].header),
    ensures
        relayed(TcpView::Open(r), TcpView::Open(c), clock, fuel) == (
            TcpView::Open(returned(c, r, clock, fuel).1),
            TcpView::Open(returned(c, r, clock, fuel).0),
        ),
    decreases fuel,
{
    if fuel == 0 || r.egress.len() == 0 {
    } else {
        let seg = r.egress[0];
        lemma_return_step(c, r, stream, ps, clock(2 * fuel + 1), clock(2 * fuel));
        let c1 = c.pushed(clock(2 * fuel), seg.header, seg.payload).flushed();
        let r1 = r.popped(clock(2 * fuel + 1)).0.flushed();
        lemma_edge_stays(r, r1);
        lemma_relayed_acks(c1, r1, stream, ps.drop_first(), clock, (fuel - 1) as nat);
    }
}

/// Between states that hold paired connections, what the host carries to and fro is an
/// exchange between the connections.
pub proof fn lemma_conversed(
    c: ConnectionView,
    r: ConnectionView,
    stream: Seq<u8>,
    clock: spec_fn(nat) -> u64,
    fuel: nat,
)
    requires
        paired(c, r, stream),
        r.egress.len() == 0,
        r.rcv.nxt - r.tcb.ack_owed <= c.snd.una,
        c.tcb.snd_wnd >= 2 * MSS,
        fuel >= c.snd.end - c.snd.nxt,
        c.snd.end + 8 <= right_edge(r) || (c.snd.end <= right_edge(r) && in_full_segments(
            c,
            r,
            Seq::empty(),
        )),
        crate::seq::seq_lt(c.tcb.snd_wl1, seq_add(r.tcb.iss, r.snd.nxt as int)),
    ensures
        conversed(TcpView::Open(c), TcpView::Open(r), clock, fuel) == (
            TcpView::Open(exchanged(c, r, clock, fuel).0),
            TcpView::Open(exchanged(c, r, clock, fuel).1),
        ),
{
    let k1 = |i: nat| clock(3 * i);
    let k2 = |i: nat| clock(3 * i + 1);
    let k3 = |i: nat| clock(3 * i + 2);
    let from = c.snd.una as int;
    let ps0 = Seq::<int>::empty();
    assert(acks_waiting(r, ps0, from));
    let ps1 = lemma_pumped_acks(c, r, stream, ps0, from, k1, fuel);
    lemma_pumped(c, r, stream, k1, fuel);
    lemma_relayed_transfer(c, r, stream, k1, fuel);
    let (c1, r1) = pumped(c, r, k1, fuel);
    lemma_first_ack_is_newer(c, r, c1, r1, ps1);
    lemma_edge_stays(r, r1);
    lemma_returned(c1, r1, stream, ps1, k2, fuel);
    lemma_relayed_acks(c1, r1, stream, ps1, k2, fuel);
    let (c2, r2) = returned(c1, r1, k2, fuel);
    lemma_relayed_transfer(c2, r2, stream, k3, fuel);
}

/// The segment that `v` hands out at the time `now`, and `v` after that.
pub open spec fn handed_out(v: TcpView, now: u64) -> (TcpView, SegmentView) {
    (v.popped(now).0, v.popped(now).1->Ok_0)
}

/// A connection is made between a state that connects from `local` to `remote` and a
/// state that listens with the backlog `backlog`, both new before: the first connects, the
/// host carries its SYN to the listener, the listener's answer back, and the
/// acknowledgment of the answer to the listener, and the listener's application accepts.
/// The moves happen at the times `clock(0)` to `clock(6)`.
///
/// This gives the state that connected, the listener, and the state that holds the
/// accepted connection.
pub open spec fn met(clock: spec_fn(nat) -> u64, local: Endpoint, remote: Endpoint, backlog: u32) -> (
    TcpView,
    TcpView,
    TcpView,
) {
    let a0 = connect_outcome::<(), ()>(TcpView::Init, clock(0), remote, Ok((local, ()))).0;
    let l0 = listen_outcome::<(), ()>(TcpView::Init, backlog, Ok(())).0;
    let (a1, syn) = handed_out(a0, clock(1));
    let l1 = l0.pushed(clock(2), syn.header, syn.payload);
    let (l2, syn_ack) = handed_out(l1, clock(3));
    let a2 = a1.pushed(clock(4), syn_ack.header, syn_ack.payload);
    let (a3, ack) = handed_out(a2, clock(5));
    let l3 = l2.pushed(clock(6), ack.header, ack.payload);
    (a3, l3.accepted().0, TcpView::Open(l3.accepted().1->Ok_0))
}

/// Making a connection through a listener with room for it is a three-way handshake: each
/// of the three segments is handed out when the host asks for it, the listener has a
/// connection to accept in the end, and what is left are the two connections that the
/// handshake leaves, and the listener without connections.
pub proof fn lemma_met(clock: spec_fn(nat) -> u64, local: Endpoint, remote: Endpoint, backlog: u32)
    requires
        backlog > 0,
    ensures
        met(clock, local, remote, backlog) == (
            TcpView::Open(handshake(clock, local, remote).0),
            TcpView::Listen(ListenView::empty(backlog)),
            TcpView::Open(handshake(clock, local, remote).1),
        ),
        ({
            let a0 = connect_outcome::<(), ()>(TcpView::Init, clock(0), remote, Ok((local, ()))).0;
            let l0 = listen_outcome::<(), ()>(TcpView::Init, backlog, Ok(())).0;
            let (a1, syn) = handed_out(a0, clock(1));
            let l1 = l0.pushed(clock(2), syn.header, syn.payload);
            let (l2, syn_ack) = handed_out(l1, clock(3));
            let a2 = a1.pushed(clock(4), syn_ack.header, syn_ack.payload);
            let (a3, ack) = handed_out(a2, clock(5));
            let l3 = l2.pushed(clock(6), ack.header, ack.payload);
            &&& a0.popped(clock(1)).1 is Ok
            &&& l1.popped(clock(3)).1 is Ok
            &&& a2.popped(clock(5)).1 is Ok
            &&& l3.accepted().1 is Ok
        }),
{
    let t0 = clock(0);
    let t2 = clock(2);
    lemma_opened(t0, clock(1), local, remote);
    let (c1, syn) = opened(t0, clock(1), local, remote);
    let a0 = connect_outcome::<(), ()>(TcpView::Init, t0, remote, Ok((local, ()))).0;
    let f = ConnectionView::active(t0, local, remote).flushed();
    assert(a0 == TcpView::Open(f));
    assert(f.egress.len() == 1);
    assert(c1.flushed() == c1);
    let (a1, syn_a) = handed_out(a0, clock(1));
    assert(a1 == TcpView::Open(c1));
    assert(syn_a == syn);

    lemma_answered(t2, clock(3), syn.header);
    let (s1, syn_ack) = answered(t2, clock(3), syn.header);
    let e0 = ListenView::empty(backlog);
    let l0 = listen_outcome::<(), ()>(TcpView::Init, backlog, Ok(())).0;
    assert(l0 == TcpView::Listen(e0));
    crate::flags::TcpFlags::lemma_control(false, true, false, false, false);
    let p = ConnectionView::passive(t2, syn.header).flushed();
    assert(p.egress.len() == 1);
    let le1 = e0.pushed(t2, syn.header, syn.payload);
    assert(le1.pending =~= seq![p]);
    assert(le1 == (ListenView { pending: seq![p], ..e0 }));
    let l1 = l0.pushed(t2, syn.header, syn.payload);
    assert(l1 == TcpView::Listen(le1));
    assert(p.wants_to_send());
    assert(first_sender(le1.pending, 0) == 0);
    assert(s1.flushed() == s1);
    let le2 = le1.popped(clock(3)).0;
    assert(le2.pending =~= seq![s1]);
    assert(le2 == (ListenView { pending: seq![s1], ..e0 }));
    let (l2, syn_ack_l) = handed_out(l1, clock(3));
    assert(l2 == TcpView::Listen(le2));
    assert(syn_ack_l == syn_ack);

    lemma_confirmed(t0, t2, clock(4), clock(5), local, remote);
    assert(syn_ack.payload =~= Seq::<u8>::empty());
    assert(syn_ack == (SegmentView { header: syn_ack_of(t2, syn.header), payload: Seq::empty() }));
    let (c3, ack) = confirmed(c1, clock(4), clock(5), syn_ack);
    let e = c1.pushed(clock(4), syn_ack.header, syn_ack.payload).flushed();
    crate::handshake::lemma_syn_ack_of(t0, t2, local, remote);
    crate::handshake::lemma_taken_syn_ack(c1, clock(4), syn_ack.header);
    let a2 = a1.pushed(clock(4), syn_ack.header, syn_ack.payload);
    assert(a2 == TcpView::Open(e));
    assert(e.egress.len() == 1);
    assert(c3.flushed() == c3);
    let (a3, ack_a) = handed_out(a2, clock(5));
    assert(a3 == TcpView::Open(c3));
    assert(ack_a == ack);

    crate::handshake::lemma_completed(s1, clock(6), ack.header, ack.payload, c3.tcb.iss);
    let r = s1.pushed(clock(6), ack.header, ack.payload).flushed();
    assert(position(le2.queue, ack.header.destination(), ack.header.source(), 0) == 0);
    assert(position(le2.pending, ack.header.destination(), ack.header.source(), 0) == 0);
    let le3 = le2.pushed(clock(6), ack.header, ack.payload);
    assert(le3 == le2.with_pending(0, r));
    assert(le3.pending =~= Seq::<ConnectionView>::empty());
    assert(le3.queue =~= seq![r]);
    assert(le3.accepted().0.queue =~= Seq::<ConnectionView>::empty());
    assert(le3.accepted().0 == e0);
    assert(le3.accepted().1 == Ok::<ConnectionView, crate::error::AcceptError>(r));
}

/// The sum of `lens`.
pub open spec fn total(lens: Seq<nat>) -> nat
    decreases lens.len(),
{
    if lens.len() == 0 {
        0
    } else {
        lens[0] + total(lens.drop_first())
    }
}

/// The application reads from `v` one time after the other, each time asking for at most
/// as many bytes as `lens` says; the read `i` before the end happens at the time
/// `clock(i)`. This gives the state after the last read, and all that the reads have
/// written, in their order.
pub open spec fn read(v: TcpView, clock: spec_fn(nat) -> u64, lens: Seq<nat>) -> (TcpView, Seq<u8>)
    decreases lens.len(),
{
    if lens.len() == 0 {
        (v, Seq::empty())
    } else {
        let rest = read(v.received(clock(lens.len()), lens[0] as int), clock, lens.drop_first());
        (rest.0, v.recv_bytes(lens[0] as int) + rest.1)
    }
}

/// Reads from an established connection whose peer has not closed write the readable
/// bytes from the first on, as many as were asked for in all, and leave the others. Once
/// all were asked for, the next read finds nothing.
pub proof fn lemma_read(r: ConnectionView, clock: spec_fn(nat) -> u64, lens: Seq<nat>, len: int)
    requires
        r.tcb.state == StateTag::Established,
        !r.rcv.fin_reached,
        forall|i: int| 0 <= i < lens.len() ==> 0 < #[trigger] lens[i] <= usize::MAX,
    ensures
        ({
            let (v, out) = read(TcpView::Open(r), clock, lens);
            let k = if total(lens) < r.rcv.readable.len() {
                total(lens) as int
            } else {
                r.rcv.readable.len() as int
            };
            &&& out == r.rcv.readable.take(k)
            &&& v is Open
            &&& v->Open_0.tcb.state == StateTag::Established
            &&& !v->Open_0.rcv.fin_reached
            &&& v->Open_0.rcv.readable == r.rcv.readable.skip(k)
            &&& total(lens) >= r.rcv.readable.len() ==> v.recv_result(len) == Err::<
                usize,
                RecvError,
            >(RecvError::Empty)
        }),
    decreases lens.len(),
{
    let all = r.rcv.readable;
    if lens.len() == 0 {
        assert(all.take(0) =~= Seq::<u8>::empty());
        assert(all.skip(0) =~= all);
    } else {
        let first = lens[0] as int;
        let rest = lens.drop_first();
        let n = if all.len() == 0 {
            0
        } else if first < all.len() {
            first
        } else {
            all.len() as int
        };
        let v1 = TcpView::Open(r).received(clock(lens.len()), first);
        let r1 = r.received(clock(lens.len()), first).flushed();
        assert(v1 == TcpView::Open(r1));
        assert(TcpView::Open(r).recv_bytes(first) =~= all.take(n));
        assert(r1.rcv.readable =~= all.skip(n));
        assert forall|i: int| 0 <= i < rest.len() implies 0 < #[trigger] rest[i] <= usize::MAX by {
            assert(rest[i] == lens[i + 1]);
        }
        lemma_read(r1, clock, rest, len);
        let k1 = if total(rest) < all.len() - n {
            total(rest) as int
        } else {
            all.len() - n
        };
        assert(all.take(n) + all.skip(n).take(k1) =~= all.take(n + k1));
        assert(all.skip(n).skip(k1) =~= all.skip(n + k1));
    }
}

/// A whole session. A state connects to a listener and the connection is accepted. The
/// state that connected takes `bytes` from its application with one call of `send`, and
/// the host carries the segments to the accepted connection, its acknowledgments back,
/// and the segments that these let through. Then the reads of the accepted connection's
/// application, once they have asked for as many bytes as were sent, have written exactly
/// `bytes`, and the next read finds nothing.
///
/// This holds for at least one byte, and for as many bytes as the buffers hold: one call
/// of `send` takes no more.
pub proof fn lemma_session(
    clock: spec_fn(nat) -> u64,
    reading: spec_fn(nat) -> u64,
    local: Endpoint,
    remote: Endpoint,
    backlog: u32,
    bytes: Seq<u8>,
    lens: Seq<nat>,
    len: int,
)
    requires
        backlog > 0,
        0 < bytes.len() <= RECV_CAPACITY,
        forall|i: int| 0 <= i < lens.len() ==> 0 < #[trigger] lens[i] <= usize::MAX,
        total(lens) >= bytes.len(),
    ensures
        ({
            let n = bytes.len() as int;
            let (a, l, c) = met(clock, local, remote, backlog);
            let (a2, c2) = conversed(a.sent(bytes, n), c, |i: nat| clock(i + 7), bytes.len());
            let (c3, out) = read(c2, reading, lens);
            &&& a.state() == StateTag::Established
            &&& c.state() == StateTag::Established
            &&& l == TcpView::Listen(ListenView::empty(backlog))
            &&& a.send_result(n, n) == Ok::<usize, SendError>(n as usize)
            &&& out == bytes
            &&& c3.recv_result(len) == Err::<usize, RecvError>(RecvError::Empty)
        }),
{
    let n = bytes.len() as int;
    let later = |i: nat| clock(i + 7);
    lemma_met(clock, local, remote, backlog);
    lemma_handshake(clock, local, remote);
    let (c, r) = handshake(clock, local, remote);
    let none = Seq::<u8>::empty();
    lemma_sent_in_step(c, r, none, bytes);
    assert(none + bytes =~= bytes);
    let c0 = c.sent(bytes, n);
    crate::seq::lemma_diff_of_offsets(r.tcb.iss, 0, 1);
    assert(seq_add(r.tcb.iss, 0) == r.tcb.iss);
    lemma_exchanged(c0, r, bytes, later, bytes.len());
    lemma_conversed(c0, r, bytes, later, bytes.len());
    let (c2, r2) = exchanged(c0, r, later, bytes.len());
    assert(bytes.subrange(0, n) =~= bytes);
    assert(r2.rcv.readable =~= bytes);
    lemma_read(r2, reading, lens, len);
    assert(bytes.take(n) =~= bytes);
}

} // verus!
