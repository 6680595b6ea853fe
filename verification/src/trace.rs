//! The bytes that `recv` gives over a whole run of a connection: whatever is done to the
//! connection, in whatever order, all that its `recv` calls write, one after the other, is
//! a prefix of the stream that the peer sends.

use vstd::prelude::*;
use crate::connection::StateTag;
use crate::delivery::{
    arrives,
    lemma_others_leave_receive_buffer,
    lemma_pushed_keeps_taken,
    lemma_pushed_receives,
    lemma_recv_in_order,
};
use crate::header::TcpHeader;
use crate::state::TcpView;
use crate::timer::{Timer, TimerRegisteredBy};
use crate::well_formed::lemma_state_stays_wf;

verus! {

/// One thing that is done to a state.
pub enum Event {
    /// A segment arrives.
    Push { now: u64, header: TcpHeader, payload: Seq<u8> },
    /// The host asks for a segment.
    Pop { now: u64 },
    /// A timer fires.
    Fire { now: u64, timer: Timer, by: TimerRegisteredBy },
    /// The application hands over bytes.
    Send { bytes: Seq<u8>, len: nat },
    /// The application asks for up to `len` bytes.
    Recv { now: u64, len: nat },
    /// The application closes.
    Close,
}

/// The state after the event `e`.
pub open spec fn after(v: TcpView, e: Event) -> TcpView {
    match e {
        Event::Push { now, header, payload } => v.pushed(now, header, payload),
        Event::Pop { now } => v.popped(now).0,
        Event::Fire { now, timer, by } => v.timer_fired(now, timer, by),
        Event::Send { bytes, len } => v.sent(bytes, len as int),
        Event::Recv { now, len } => v.received(now, len as int),
        Event::Close => v.closed().0,
    }
}

/// The bytes that the event `e` writes to the application's writer: those that `recv`
/// gives, and none for every other event.
pub open spec fn written(v: TcpView, e: Event) -> Seq<u8> {
    match e {
        Event::Recv { now, len } => v.recv_bytes(len as int),
        _ => Seq::empty(),
    }
}

/// The state after the events `events`, one after the other.
pub open spec fn after_all(v: TcpView, events: Seq<Event>) -> TcpView
    decreases events.len(),
{
    if events.len() == 0 {
        v
    } else {
        after_all(after(v, events[0]), events.drop_first())
    }
}

/// All the bytes that the events `events` write to the application's writers, in the order
/// of the events.
pub open spec fn written_by_all(v: TcpView, events: Seq<Event>) -> Seq<u8>
    decreases events.len(),
{
    if events.len() == 0 {
        Seq::empty()
    } else {
        written(v, events[0]) + written_by_all(after(v, events[0]), events.drop_first())
    }
}

/// Every segment that arrives in the course of `events` is a segment of the peer that
/// sends `stream`, as the connection stands when the segment arrives. Of a connection that
/// has not seen the peer's SYN yet nothing is asked, as it takes no bytes.
pub open spec fn fed_by(v: TcpView, events: Seq<Event>, stream: Seq<u8>) -> bool
    decreases events.len(),
{
    if events.len() == 0 {
        true
    } else {
        &&& match (v, events[0]) {
            (TcpView::Open(c), Event::Push { now, header, payload }) => c.tcb.state
                == StateTag::SynSent || arrives(c, header, payload, stream),
            _ => true,
        }
        &&& fed_by(after(v, events[0]), events.drop_first(), stream)
    }
}

/// The number of bytes of the peer's stream that the application has taken so far.
pub open spec fn taken(v: TcpView) -> int {
    match v {
        TcpView::Open(c) => c.rcv.delivered(),
        _ => 0,
    }
}

/// The receive buffer of the state, if it is a connection, agrees with `stream`.
pub open spec fn receives(v: TcpView, stream: Seq<u8>) -> bool {
    match v {
        TcpView::Open(c) => c.wf() && c.rcv.agrees_with(stream),
        _ => true,
    }
}

/// One event leaves a state that receives a stream receiving it, and what it writes is the
/// part of the stream that follows what was taken before.
pub proof fn lemma_event(v: TcpView, e: Event, stream: Seq<u8>)
    requires
        v.wf(),
        receives(v, stream),
        match (v, e) {
            (TcpView::Open(c), Event::Push { now, header, payload }) => c.tcb.state
                == StateTag::SynSent || arrives(c, header, payload, stream),
            _ => true,
        },
    ensures
        after(v, e).wf(),
        receives(after(v, e), stream),
        !(v is Open) ==> written(v, e).len() == 0 && !(after(v, e) is Open),
        v is Open ==> taken(v) + written(v, e).len() <= stream.len() && written(v, e)
            == stream.subrange(taken(v), taken(v) + written(v, e).len()),
        v is Open && after(v, e) is Open ==> taken(after(v, e)) == taken(v) + written(v, e).len(),
{
    let h0 = TcpHeader {
        ip: crate::header::Ipv4Header { src: 0, dst: 0 },
        flags: crate::flags::TcpFlags { bits: 0 },
        src_port: 0,
        dst_port: 0,
        seq: 0,
        ack: 0,
        window_size: 0,
        selective_acks: None,
        window_scale: None,
        timestamp: None,
        timestamp_echo: None,
    };
    let t0 = Timer {
        kind: crate::timer::TimerKind::Reset,
        at: 0,
        local: crate::header::Endpoint { ip: 0, port: 0 },
        remote: crate::header::Endpoint { ip: 0, port: 0 },
    };
    let here = crate::header::Endpoint { ip: 0, port: 0 };
    match e {
        Event::Push { now, header, payload } => {
            lemma_state_stays_wf(
                v,
                now,
                header,
                payload,
                t0,
                TimerRegisteredBy::Parent,
                0,
                0,
                here,
                here,
            );
            match v {
                TcpView::Open(c) => {
                    lemma_pushed_receives(c, now, header, payload, stream);
                    crate::well_formed::lemma_pushed_wf(c, now, header, payload);
                    lemma_pushed_keeps_taken(c, now, header, payload);
                },
                _ => {},
            }
            assert(stream.subrange(taken(v), taken(v)) =~= Seq::<u8>::empty());
        },
        Event::Pop { now } => {
            lemma_state_stays_wf(
                v,
                now,
                h0,
                Seq::empty(),
                t0,
                TimerRegisteredBy::Parent,
                0,
                0,
                here,
                here,
            );
            match v {
                TcpView::Open(c) => {
                    lemma_others_leave_receive_buffer(c, now, t0, Seq::empty(), 0);
                    crate::well_formed::lemma_popped_wf(c, now);
                },
                _ => {},
            }
            assert(stream.subrange(taken(v), taken(v)) =~= Seq::<u8>::empty());
        },
        Event::Fire { now, timer, by } => {
            lemma_state_stays_wf(v, now, h0, Seq::empty(), timer, by, 0, 0, here, here);
            match v {
                TcpView::Open(c) => {
                    lemma_others_leave_receive_buffer(c, now, timer, Seq::empty(), 0);
                    crate::well_formed::lemma_timer_fired_wf(c, now, timer);
                },
                _ => {},
            }
            assert(stream.subrange(taken(v), taken(v)) =~= Seq::<u8>::empty());
        },
        Event::Send { bytes, len } => {
            lemma_state_stays_wf(
                v,
                0,
                h0,
                bytes,
                t0,
                TimerRegisteredBy::Parent,
                len as int,
                0,
                here,
                here,
            );
            match v {
                TcpView::Open(c) => {
                    lemma_others_leave_receive_buffer(c, 0, t0, bytes, len as int);
                    crate::well_formed::lemma_application_wf(c, 0, bytes, len as int);
                },
                _ => {},
            }
            assert(stream.subrange(taken(v), taken(v)) =~= Seq::<u8>::empty());
        },
        Event::Recv { now, len } => {
            lemma_state_stays_wf(
                v,
                now,
                h0,
                Seq::empty(),
                t0,
                TimerRegisteredBy::Parent,
                len as int,
                0,
                here,
                here,
            );
            match v {
                TcpView::Open(c) => {
                    crate::well_formed::lemma_application_wf(c, now, Seq::empty(), len as int);
                    if c.recv_result(len as int) is Ok {
                        lemma_recv_in_order(c, now, len as int, stream);
                    } else {
                        assert(stream.subrange(taken(v), taken(v)) =~= Seq::<u8>::empty());
                    }
                },
                _ => {},
            }
        },
        Event::Close => {
            lemma_state_stays_wf(
                v,
                0,
                h0,
                Seq::empty(),
                t0,
                TimerRegisteredBy::Parent,
                0,
                0,
                here,
                here,
            );
            match v {
                TcpView::Open(c) => {
                    lemma_others_leave_receive_buffer(c, 0, t0, Seq::empty(), 0);
                    crate::well_formed::lemma_application_wf(c, 0, Seq::empty(), 0);
                },
                _ => {},
            }
            assert(stream.subrange(taken(v), taken(v)) =~= Seq::<u8>::empty());
        },
    }
}

/// Whatever is done to a connection whose receive buffer agrees with the stream that its
/// peer sends, and whatever segments of that stream arrive, in whatever order, repeated or
/// not: all that the `recv` calls write, one after the other, is the part of the stream
/// that follows what was taken before. From a new connection on, it is a prefix of the
/// stream: no byte is made up, left out, repeated or out of place.
pub proof fn lemma_recv_writes_a_prefix(v: TcpView, events: Seq<Event>, stream: Seq<u8>)
    requires
        v.wf(),
        receives(v, stream),
        fed_by(v, events, stream),
    ensures
        ({
            let out = written_by_all(v, events);
            &&& !(v is Open) ==> out.len() == 0
            &&& v is Open ==> taken(v) + out.len() <= stream.len() && out == stream.subrange(
                taken(v),
                taken(v) + out.len(),
            )
        }),
    decreases events.len(),
{
    if events.len() > 0 {
        let e = events[0];
        lemma_event(v, e, stream);
        let v1 = after(v, e);
        let rest = events.drop_first();
        lemma_recv_writes_a_prefix(v1, rest, stream);
        let first = written(v, e);
        let more = written_by_all(v1, rest);
        if v is Open {
            if v1 is Open {
                assert(first + more =~= stream.subrange(
                    taken(v),
                    taken(v) + first.len() + more.len(),
                ));
            } else {
                assert(first + more =~= first);
            }
        } else {
            assert(first + more =~= Seq::<u8>::empty());
        }
    } else {
        if v is Open {
            assert(stream.subrange(taken(v), taken(v)) =~= Seq::<u8>::empty());
        }
    }
}

} // verus!
