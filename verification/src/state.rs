//! The socket surface of the engine: one state object that is created, then listens or
//! connects, and is driven by the application, by segments and by timers.
//!
//! The object holds its current state as one value. Every operation takes that value out,
//! hands it to the handler of the state, and stores what the handler gives back.

use vstd::prelude::*;
use bytes::Bytes;
use crate::connection::{Connection, ConnectionView, Segment, SegmentView, StateTag, segment_views};
use crate::error::{
    AcceptError,
    CloseError,
    ConnectError,
    ListenError,
    PopPacketError,
    PushPacketError,
    RecvError,
    SendError,
    TcpError,
};
use crate::flags::{PollState, Readiness};
use crate::header::{Endpoint, TcpHeader};
use crate::listen::{
    can_be_accepted,
    flush,
    only,
    registered,
    Child,
    ListenState,
    ListenView,
    TimerObjects,
};
use crate::payload::{bytes_from_vec, payload_bytes, vec_from_bytes};
use crate::timer::{Dependencies, Timer, TimerRegisteredBy};

verus! {

/// What is left of a state that has reached the end.
pub struct ClosedView {
    /// The segments that are still to go on the wire.
    pub egress: Seq<SegmentView>,
    /// The latched error.
    pub error: Option<TcpError>,
    /// The state was a connection that had been established.
    pub was_established: bool,
    /// The two ends, if the state was a connection.
    pub addrs: Option<(Endpoint, Endpoint)>,
}

/// The mathematical content of a [`TcpState`].
pub enum TcpView {
    /// Created, and neither listening nor connecting yet.
    Init,
    /// Listening.
    Listen(ListenView),
    /// A connection in one of the states from SYN-SENT to the RST state.
    Open(ConnectionView),
    /// At the end.
    Closed(ClosedView),
}

/// What a call to `listen` in the state `v` gives and leaves, where `association` is what
/// the caller's function gave, or would give.
pub open spec fn listen_outcome<T, E>(v: TcpView, backlog: u32, association: Result<T, E>) -> (
    TcpView,
    Result<T, ListenError<E>>,
) {
    match v {
        TcpView::Init => match association {
            Ok(t) => (TcpView::Listen(ListenView::empty(backlog)), Ok(t)),
            Err(e) => (v, Err(ListenError::FailedAssociation(e))),
        },
        _ => (v, Err(ListenError::InvalidState)),
    }
}

/// The local address that binding the socket has given, if it has given one.
pub open spec fn bound<T, E>(association: Result<(Endpoint, T), E>) -> Option<Endpoint> {
    match association {
        Ok((local, _)) => Some(local),
        Err(_) => None,
    }
}

/// What a call to `connect` in the state `v` at the time `now` gives and leaves, where
/// `association` is what the caller's function gave, or would give.
pub open spec fn connect_outcome<T, E>(
    v: TcpView,
    now: u64,
    remote: Endpoint,
    association: Result<(Endpoint, T), E>,
) -> (TcpView, Result<T, ConnectError<E>>) {
    match v {
        TcpView::Init => match association {
            Ok((local, t)) => (
                TcpView::Open(ConnectionView::active(now, local, remote).flushed()),
                Ok(t),
            ),
            Err(e) => (v, Err(ConnectError::FailedAssociation(e))),
        },
        TcpView::Open(c) => if c.tcb.state.is_handshake() {
            (v, Err(ConnectError::InProgress))
        } else {
            (v, Err(ConnectError::AlreadyConnected))
        },
        _ => (v, Err(ConnectError::InvalidState)),
    }
}

impl TcpView {
    pub open spec fn wf(self) -> bool {
        match self {
            TcpView::Listen(l) => l.wf(),
            TcpView::Open(c) => c.wf() && c.timers.len() == 0 && c.tcb.state != StateTag::Closed,
            _ => true,
        }
    }

    /// Which of the thirteen states this is.
    pub open spec fn state(self) -> StateTag {
        match self {
            TcpView::Init => StateTag::Init,
            TcpView::Listen(_) => StateTag::Listen,
            TcpView::Open(c) => c.tcb.state,
            TcpView::Closed(_) => StateTag::Closed,
        }
    }

    /// The state that holds the connection `c` after one of its operations: the timers
    /// that it wanted set have been handed over, and of a connection that is gone only the
    /// segments for the wire, the error and the addresses are kept.
    pub open spec fn of_connection(c: ConnectionView) -> TcpView {
        if c.tcb.state == StateTag::Closed {
            TcpView::Closed(
                ClosedView {
                    egress: c.egress,
                    error: c.tcb.error,
                    was_established: c.tcb.was_established,
                    addrs: Some((c.tcb.local, c.tcb.remote)),
                },
            )
        } else {
            TcpView::Open(c.flushed())
        }
    }

    /// The state after `close`, and what the application gets. A listener gives up every
    /// connection that waits and is closed; a connection does what its state says; a state
    /// that is new or at the end refuses.
    pub open spec fn closed(self) -> (TcpView, Result<(), CloseError>) {
        match self {
            TcpView::Listen(l) => (
                TcpView::Closed(
                    ClosedView {
                        egress: l.residue(),
                        error: None,
                        was_established: false,
                        addrs: None,
                    },
                ),
                Ok(()),
            ),
            TcpView::Open(c) => (Self::of_connection(c.closed().0), c.closed().1),
            _ => (self, Err(CloseError::InvalidState)),
        }
    }

    /// The state after `accept`, and what the application gets.
    pub open spec fn accepted(self) -> (TcpView, Result<ConnectionView, AcceptError>) {
        match self {
            TcpView::Listen(l) => (TcpView::Listen(l.accepted().0), l.accepted().1),
            _ => (self, Err(AcceptError::InvalidState)),
        }
    }

    /// What `send` gives when `avail` bytes are offered and at most `len` are to be taken.
    pub open spec fn send_result(self, avail: int, len: int) -> Result<usize, SendError> {
        match self {
            TcpView::Open(c) => c.send_result(avail, len),
            _ => Err(SendError::InvalidState),
        }
    }

    /// The state after `send`.
    pub open spec fn sent(self, bytes: Seq<u8>, len: int) -> TcpView {
        match self {
            TcpView::Open(c) => TcpView::Open(c.sent(bytes, len)),
            _ => self,
        }
    }

    /// The number of bytes that `send` would take now.
    pub open spec fn send_room(self) -> int {
        match self {
            TcpView::Open(c) => c.send_room(),
            _ => 0,
        }
    }

    /// What `recv` gives when at most `len` bytes are asked for.
    pub open spec fn recv_result(self, len: int) -> Result<usize, RecvError> {
        match self {
            TcpView::Open(c) => c.recv_result(len),
            _ => Err(RecvError::InvalidState),
        }
    }

    /// The bytes that `recv` hands over when at most `len` bytes are asked for.
    pub open spec fn recv_bytes(self, len: int) -> Seq<u8> {
        match (self, self.recv_result(len)) {
            (TcpView::Open(c), Ok(n)) => c.rcv.readable.take(n as int),
            _ => Seq::empty(),
        }
    }

    /// The state after `recv` at the time `now`.
    pub open spec fn received(self, now: u64, len: int) -> TcpView {
        match self {
            TcpView::Open(c) => Self::of_connection(c.received(now, len)),
            _ => self,
        }
    }

    /// What `push_packet` gives: a state that is new or at the end takes no segments.
    pub open spec fn push_result(self) -> Result<(), PushPacketError> {
        match self {
            TcpView::Listen(_) | TcpView::Open(_) => Ok(()),
            _ => Err(PushPacketError::InvalidState),
        }
    }

    /// The state after a segment with the header `h` and the bytes `payload` arrived at the
    /// time `now`.
    pub open spec fn pushed(self, now: u64, h: TcpHeader, payload: Seq<u8>) -> TcpView {
        match self {
            TcpView::Listen(l) => TcpView::Listen(l.pushed(now, h, payload)),
            TcpView::Open(c) => Self::of_connection(c.pushed(now, h, payload)),
            _ => self,
        }
    }

    /// The state after the host asked for a segment at the time `now`, and what the host
    /// gets.
    pub open spec fn popped(self, now: u64) -> (TcpView, Result<SegmentView, PopPacketError>) {
        match self {
            TcpView::Init => (self, Err(PopPacketError::InvalidState)),
            TcpView::Listen(l) => (TcpView::Listen(l.popped(now).0), l.popped(now).1),
            TcpView::Open(c) => (Self::of_connection(c.popped(now).0), c.popped(now).1),
            TcpView::Closed(d) => if d.egress.len() > 0 {
                (
                    TcpView::Closed(ClosedView { egress: d.egress.drop_first(), ..d }),
                    Ok(d.egress[0]),
                )
            } else {
                (self, Err(PopPacketError::NoPacket))
            },
        }
    }

    /// The timer `t`, handed in with the tag `by`, still applies: a timer that the state
    /// itself set applies if the connection says so, and one that a child set applies if
    /// the child still waits at the listener and says so.
    pub open spec fn timer_applies(self, t: Timer, by: TimerRegisteredBy) -> bool {
        match (self, by) {
            (TcpView::Open(c), TimerRegisteredBy::Parent) => c.timer_applies(t),
            (TcpView::Listen(l), TimerRegisteredBy::Child) => l.timer_applies(t),
            _ => false,
        }
    }

    /// The state after the timer `t` fired at the time `now` and was handed in with the
    /// tag `by`.
    pub open spec fn timer_fired(self, now: u64, t: Timer, by: TimerRegisteredBy) -> TcpView {
        match (self, by) {
            (TcpView::Open(c), TimerRegisteredBy::Parent) => Self::of_connection(
                c.timer_fired(now, t),
            ),
            (TcpView::Listen(l), TimerRegisteredBy::Child) => TcpView::Listen(
                l.timer_fired(now, t),
            ),
            _ => self,
        }
    }

    /// The latched error.
    pub open spec fn error(self) -> Option<TcpError> {
        match self {
            TcpView::Open(c) => c.tcb.error,
            TcpView::Closed(d) => d.error,
            _ => None,
        }
    }

    /// The state after the latched error was read.
    pub open spec fn error_cleared(self) -> TcpView {
        match self {
            TcpView::Open(c) => TcpView::Open(
                ConnectionView { tcb: crate::connection::Tcb { error: None, ..c.tcb }, ..c },
            ),
            TcpView::Closed(d) => TcpView::Closed(ClosedView { error: None, ..d }),
            _ => self,
        }
    }

    /// What `poll` reports.
    pub open spec fn readiness(self) -> Readiness {
        match self {
            TcpView::Init => Readiness {
                readable: false,
                writable: false,
                error: false,
                recv_closed: false,
                send_closed: false,
                ready_to_accept: false,
                established: false,
                closed: false,
            },
            TcpView::Listen(l) => l.readiness(),
            TcpView::Open(c) => c.readiness(),
            TcpView::Closed(d) => Readiness {
                readable: false,
                writable: false,
                error: d.error is Some,
                recv_closed: true,
                send_closed: true,
                ready_to_accept: false,
                established: d.was_established,
                closed: true,
            },
        }
    }

    /// The state has something for the wire.
    pub open spec fn wants_to_send(self) -> bool {
        match self {
            TcpView::Init => false,
            TcpView::Listen(l) => l.wants_to_send(),
            TcpView::Open(c) => c.wants_to_send(),
            TcpView::Closed(d) => d.egress.len() > 0,
        }
    }

    /// The timer objects after `close`: a listener that closes gives up the connections
    /// that wait, and their objects with them.
    pub open spec fn close_objects<X>(self, before: TimerObjects<X>) -> TimerObjects<X> {
        match self {
            TcpView::Listen(_) => only(before.own),
            _ => before,
        }
    }

    /// The timer objects after `accept`: the connection that is taken takes its object
    /// along.
    pub open spec fn accept_objects<X>(self, before: TimerObjects<X>) -> TimerObjects<X> {
        match self {
            TcpView::Listen(l) => l.accept_objects(before),
            _ => before,
        }
    }

    /// What `connect` does to the timer objects: they stay, and the timer for the SYN is
    /// set through the state's own object if the socket was bound to `local`.
    pub open spec fn connect_registers<X: Dependencies>(
        self,
        before: TimerObjects<X>,
        after: TimerObjects<X>,
        now: u64,
        remote: Endpoint,
        local: Option<Endpoint>,
    ) -> bool {
        &&& after == before
        &&& match (self, local) {
            (TcpView::Init, Some(l)) => registered(
                before.own,
                ConnectionView::active(now, l, remote).timers,
            ),
            _ => true,
        }
    }

    /// What `recv` does to the timer objects: they stay, and the timers that the
    /// connection asks for are set through the state's own object.
    pub open spec fn recv_registers<X: Dependencies>(
        self,
        before: TimerObjects<X>,
        after: TimerObjects<X>,
        now: u64,
        len: int,
    ) -> bool {
        &&& after == before
        &&& match self {
            TcpView::Open(c) => registered(before.own, c.received(now, len).timers),
            _ => true,
        }
    }

    /// What a segment does to the timer objects: the timers that a connection asks for
    /// are set through the state's own object, and those of a listener's connections as
    /// the listener says.
    pub open spec fn push_registers<X: Dependencies>(
        self,
        before: TimerObjects<X>,
        after: TimerObjects<X>,
        now: u64,
        h: TcpHeader,
        payload: Seq<u8>,
    ) -> bool {
        match self {
            TcpView::Listen(l) => l.push_registers(before, after, now, h, payload),
            TcpView::Open(c) => after == before && registered(
                before.own,
                c.pushed(now, h, payload).timers,
            ),
            _ => after == before,
        }
    }

    /// What handing out a segment does to the timer objects: they stay, the timers that a
    /// connection asks for are set through the state's own object, and those of a
    /// listener's connections as the listener says.
    pub open spec fn pop_registers<X: Dependencies>(
        self,
        before: TimerObjects<X>,
        after: TimerObjects<X>,
        now: u64,
    ) -> bool {
        match self {
            TcpView::Listen(l) => l.pop_registers(before, after, now),
            TcpView::Open(c) => after == before && registered(before.own, c.popped(now).0.timers),
            _ => after == before,
        }
    }

    /// What a timer does to the timer objects: the timers that a connection asks for are
    /// set through the state's own object, and those of a listener's connections as the
    /// listener says.
    pub open spec fn timer_registers<X: Dependencies>(
        self,
        before: TimerObjects<X>,
        after: TimerObjects<X>,
        now: u64,
        t: Timer,
        by: TimerRegisteredBy,
    ) -> bool {
        match (self, by) {
            (TcpView::Open(c), TimerRegisteredBy::Parent) => after == before && registered(
                before.own,
                c.timer_fired(now, t).timers,
            ),
            (TcpView::Listen(l), TimerRegisteredBy::Child) => l.timer_registers(
                before,
                after,
                now,
                t,
            ),
            _ => after == before,
        }
    }

    /// The control block, if the state is a connection.
    pub open spec fn control_block(self) -> Option<crate::connection::Tcb> {
        match self {
            TcpView::Open(c) => Some(c.tcb),
            _ => None,
        }
    }

    /// The local and the remote end, if the state is or was a connection.
    pub open spec fn addrs(self) -> Option<(Endpoint, Endpoint)> {
        match self {
            TcpView::Open(c) => Some((c.tcb.local, c.tcb.remote)),
            TcpView::Closed(d) => d.addrs,
            _ => None,
        }
    }
}

/// The state of an object that neither listens nor connects yet.
pub struct InitState<X: Dependencies> {
    deps: X,
}

/// The state of an object that has reached the end.
pub struct ClosedState<X: Dependencies> {
    deps: X,
    egress: Vec<Segment>,
    error: Option<TcpError>,
    was_established: bool,
    addrs: Option<(Endpoint, Endpoint)>,
}

/// The state that a [`TcpState`] holds.
enum TcpStateEnum<X: Dependencies> {
    Init(InitState<X>),
    Listen(ListenState<X>),
    Open(Child<X>),
    Closed(ClosedState<X>),
}

impl<X: Dependencies> View for TcpStateEnum<X> {
    type V = TcpView;

    closed spec fn view(&self) -> TcpView {
        match self {
            TcpStateEnum::Init(_) => TcpView::Init,
            TcpStateEnum::Listen(l) => TcpView::Listen(l@),
            TcpStateEnum::Open(c) => TcpView::Open(c@),
            TcpStateEnum::Closed(d) => TcpView::Closed(
                ClosedView {
                    egress: segment_views(d.egress@),
                    error: d.error,
                    was_established: d.was_established,
                    addrs: d.addrs,
                },
            ),
        }
    }
}

/// Puts the connection of `child` away after one of its operations: has its timers set,
/// and keeps of a connection that is gone only what is left of it.
fn settle<X: Dependencies>(child: Child<X>) -> (r: TcpStateEnum<X>)
    requires
        child.conn.wf(),
    ensures
        r@ == TcpView::of_connection(child@),
        r.objects() == only(child.deps),
        registered(child.deps, child@.timers),
        r@.wf(),
{
    let mut conn = child.conn;
    let deps = child.deps;
    flush(&mut conn, &deps);
    match conn.state() {
        StateTag::Closed => {
            let tcb = conn.tcb();
            let egress = conn.take_egress();
            TcpStateEnum::Closed(
                ClosedState {
                    deps,
                    egress,
                    error: tcb.error,
                    was_established: tcb.was_established,
                    addrs: Some((tcb.local, tcb.remote)),
                },
            )
        },
        _ => TcpStateEnum::Open(Child { conn, deps }),
    }
}

impl<X: Dependencies> TcpStateEnum<X> {
    fn now(&self) -> (now: u64) ensures call_ensures(X::current_time, (&self.deps(),), now), {
        match self {
            TcpStateEnum::Init(s) => s.deps.current_time(),
            TcpStateEnum::Listen(l) => {
                proof {
                    l.lemma_objects();
                }
                l.current_time()
            },
            TcpStateEnum::Open(c) => c.deps.current_time(),
            TcpStateEnum::Closed(d) => d.deps.current_time(),
        }
    }

    fn close(self) -> (r: (TcpStateEnum<X>, Result<(), CloseError>))
        requires
            self@.wf(),
        ensures
            r.0@ == self@.closed().0,
            r.1 == self@.closed().1,
            r.0.objects() == self@.close_objects(self.objects()),
            r.0@.wf(),
    {
        match self {
            TcpStateEnum::Listen(l) => {
                let (deps, egress) = l.into_residue();
                (
                    TcpStateEnum::Closed(
                        ClosedState {
                            deps,
                            egress,
                            error: None,
                            was_established: false,
                            addrs: None,
                        },
                    ),
                    Ok(()),
                )
            },
            TcpStateEnum::Open(c) => {
                let mut c = c;
                let r = c.conn.close();
                (settle(c), r)
            },
            other => (other, Err(CloseError::InvalidState)),
        }
    }

    fn listen_with<T, E>(self, backlog: u32, association: Result<T, E>) -> (r: (
        TcpStateEnum<X>,
        Result<T, ListenError<E>>,
    ))
        requires
            self@.wf(),
        ensures
            (r.0@, r.1) == listen_outcome(self@, backlog, association),
            r.0.objects() == self.objects(),
            r.0@.wf(),
    {
        match self {
            TcpStateEnum::Init(s) => match association {
                Ok(t) => (TcpStateEnum::Listen(ListenState::new(s.deps, backlog)), Ok(t)),
                Err(e) => (TcpStateEnum::Init(s), Err(ListenError::FailedAssociation(e))),
            },
            other => (other, Err(ListenError::InvalidState)),
        }
    }

    fn connect_with<T, E>(
        self,
        now: u64,
        remote: Endpoint,
        association: Result<(Endpoint, T), E>,
    ) -> (r: (TcpStateEnum<X>, Result<T, ConnectError<E>>))
        requires
            self@.wf(),
        ensures
            (r.0@, r.1) == connect_outcome(self@, now, remote, association),
            self@.connect_registers(self.objects(), r.0.objects(), now, remote, bound(association)),
            r.0@.wf(),
    {
        match self {
            TcpStateEnum::Init(s) => match association {
                Ok((local, t)) => {
                    let conn = Connection::connect(now, local, remote);
                    (settle(Child { conn, deps: s.deps }), Ok(t))
                },
                Err(e) => (TcpStateEnum::Init(s), Err(ConnectError::FailedAssociation(e))),
            },
            TcpStateEnum::Open(c) => {
                let busy: bool = c.conn.state().handshake();
                (
                    TcpStateEnum::Open(c),
                    if busy {
                        Err(ConnectError::InProgress)
                    } else {
                        Err(ConnectError::AlreadyConnected)
                    },
                )
            },
            other => (other, Err(ConnectError::InvalidState)),
        }
    }

    fn accept(self) -> (r: (TcpStateEnum<X>, Result<AcceptedTcpState<X>, AcceptError>))
        requires
            self@.wf(),
        ensures
            r.0@ == self@.accepted().0,
            match r.1 {
                Ok(a) => self@.accepted().1 == Ok::<ConnectionView, AcceptError>(a@) && a.wf(),
                Err(e) => self@.accepted().1 == Err::<ConnectionView, AcceptError>(e),
            },
            r.0.objects() == self@.accept_objects(self.objects()),
            r.1 matches Ok(a) ==> a.deps() == self.objects().queue[0],
            r.0@.wf(),
    {
        match self {
            TcpStateEnum::Listen(l) => {
                let mut l = l;
                match l.accept() {
                    Ok(child) => (TcpStateEnum::Listen(l), Ok(AcceptedTcpState(child))),
                    Err(e) => (TcpStateEnum::Listen(l), Err(e)),
                }
            },
            other => (other, Err(AcceptError::InvalidState)),
        }
    }

    fn send(self, reader: &[u8], len: usize) -> (r: (TcpStateEnum<X>, Result<usize, SendError>))
        requires
            self@.wf(),
        ensures
            r.0@ == self@.sent(reader@, len as int),
            r.1 == self@.send_result(reader@.len() as int, len as int),
            r.0.objects() == self.objects(),
            r.0@.wf(),
    {
        match self {
            TcpStateEnum::Open(c) => {
                let mut c = c;
                let r = c.conn.send(reader, len);
                proof {
                    lemma_send_keeps_state(self@->Open_0, reader@, len as int);
                }
                (TcpStateEnum::Open(c), r)
            },
            other => (other, Err(SendError::InvalidState)),
        }
    }

    fn recv(self, now: u64, writer: &mut Vec<u8>, len: usize) -> (r: (
        TcpStateEnum<X>,
        Result<usize, RecvError>,
    ))
        requires
            self@.wf(),
        ensures
            r.0@ == self@.received(now, len as int),
            r.1 == self@.recv_result(len as int),
            final(writer)@ == old(writer)@ + self@.recv_bytes(len as int),
            self@.recv_registers(self.objects(), r.0.objects(), now, len as int),
            r.0@.wf(),
    {
        match self {
            TcpStateEnum::Open(c) => {
                let mut c = c;
                let r = c.conn.recv(now, writer, len);
                (settle(c), r)
            },
            other => {
                assert(writer@ =~= old(writer)@ + Seq::<u8>::empty());
                (other, Err(RecvError::InvalidState))
            },
        }
    }

    fn push_packet(self, now: u64, h: &TcpHeader, payload: &[u8]) -> (r: (
        TcpStateEnum<X>,
        Result<(), PushPacketError>,
    ))
        requires
            self@.wf(),
        ensures
            r.0@ == self@.pushed(now, *h, payload@),
            r.1 == self@.push_result(),
            self@.push_registers(self.objects(), r.0.objects(), now, *h, payload@),
            r.0@.wf(),
    {
        match self {
            TcpStateEnum::Listen(l) => {
                let mut l = l;
                l.push_packet(now, h, payload);
                (TcpStateEnum::Listen(l), Ok(()))
            },
            TcpStateEnum::Open(c) => {
                let mut c = c;
                c.conn.push_packet(now, h, payload);
                (settle(c), Ok(()))
            },
            other => (other, Err(PushPacketError::InvalidState)),
        }
    }

    fn pop_packet(self, now: u64) -> (r: (TcpStateEnum<X>, Result<Segment, PopPacketError>))
        requires
            self@.wf(),
        ensures
            r.0@ == self@.popped(now).0,
            match r.1 {
                Ok(seg) => self@.popped(now).1 == Ok::<SegmentView, PopPacketError>(seg@),
                Err(e) => self@.popped(now).1 == Err::<SegmentView, PopPacketError>(e),
            },
            self@.wants_to_send() ==> r.1 is Ok,
            self@.pop_registers(self.objects(), r.0.objects(), now),
            r.0@.wf(),
    {
        match self {
            TcpStateEnum::Init(s) => (TcpStateEnum::Init(s), Err(PopPacketError::InvalidState)),
            TcpStateEnum::Listen(l) => {
                let mut l = l;
                let r = l.pop_packet(now);
                (TcpStateEnum::Listen(l), r)
            },
            TcpStateEnum::Open(c) => {
                let mut c = c;
                let r = c.conn.pop_packet(now);
                (settle(c), r)
            },
            TcpStateEnum::Closed(d) => {
                let mut d = d;
                if d.egress.len() > 0 {
                    let ghost before = d.egress@;
                    let seg = d.egress.remove(0);
                    assert(segment_views(d.egress@) =~= segment_views(before).drop_first());
                    (TcpStateEnum::Closed(d), Ok(seg))
                } else {
                    (TcpStateEnum::Closed(d), Err(PopPacketError::NoPacket))
                }
            },
        }
    }

    fn on_timer(self, now: u64, t: &Timer, by: TimerRegisteredBy) -> (r: TcpStateEnum<X>)
        requires
            self@.wf(),
        ensures
            r@ == self@.timer_fired(now, *t, by),
            self@.timer_registers(self.objects(), r.objects(), now, *t, by),
            r@.wf(),
    {
        match self {
            TcpStateEnum::Listen(l) => {
                let mut l = l;
                match by {
                    TimerRegisteredBy::Child => {
                        l.on_timer(now, t);
                    },
                    TimerRegisteredBy::Parent => {},
                }
                TcpStateEnum::Listen(l)
            },
            TcpStateEnum::Open(c) => {
                match by {
                    TimerRegisteredBy::Parent => {
                        let mut c = c;
                        c.conn.on_timer(now, t);
                        settle(c)
                    },
                    TimerRegisteredBy::Child => TcpStateEnum::Open(c),
                }
            },
            other => other,
        }
    }

    fn clear_error(&mut self) -> (r: Option<TcpError>)
        requires
            old(self)@.wf(),
        ensures
            r == old(self)@.error(),
            final(self)@ == old(self)@.error_cleared(),
            final(self).objects() == old(self).objects(),
            final(self)@.wf(),
    {
        match self {
            TcpStateEnum::Open(c) => c.conn.clear_error(),
            TcpStateEnum::Closed(d) => {
                let e = d.error;
                d.error = None;
                e
            },
            _ => None,
        }
    }

    fn readiness(&self) -> (r: Readiness)
        requires
            self@.wf(),
        ensures
            r == self@.readiness(),
    {
        match self {
            TcpStateEnum::Init(_) => Readiness {
                readable: false,
                writable: false,
                error: false,
                recv_closed: false,
                send_closed: false,
                ready_to_accept: false,
                established: false,
                closed: false,
            },
            TcpStateEnum::Listen(l) => l.readiness(),
            TcpStateEnum::Open(c) => c.conn.readiness(),
            TcpStateEnum::Closed(d) => Readiness {
                readable: false,
                writable: false,
                error: d.error.is_some(),
                recv_closed: true,
                send_closed: true,
                ready_to_accept: false,
                established: d.was_established,
                closed: true,
            },
        }
    }

    fn wants_to_send(&self) -> (r: bool)
        requires
            self@.wf(),
        ensures
            r == self@.wants_to_send(),
    {
        match self {
            TcpStateEnum::Init(_) => false,
            TcpStateEnum::Listen(l) => l.wants_to_send(),
            TcpStateEnum::Open(c) => c.conn.wants_to_send(),
            TcpStateEnum::Closed(d) => d.egress.len() > 0,
        }
    }

    fn send_room(&self) -> (r: usize)
        requires
            self@.wf(),
        ensures
            r == self@.send_room(),
    {
        match self {
            TcpStateEnum::Open(c) => c.conn.send_room(),
            _ => 0,
        }
    }

    fn control_block(&self) -> (r: Option<crate::connection::Tcb>)
        ensures
            r == self@.control_block(),
    {
        match self {
            TcpStateEnum::Open(c) => Some(c.conn.tcb()),
            _ => None,
        }
    }

    fn local_remote_addrs(&self) -> (r: Option<(Endpoint, Endpoint)>)
        ensures
            r == self@.addrs(),
    {
        match self {
            TcpStateEnum::Open(c) => Some((c.conn.local_addr(), c.conn.remote_addr())),
            TcpStateEnum::Closed(d) => d.addrs,
            _ => None,
        }
    }

    fn state(&self) -> (r: StateTag)
        ensures
            r == self@.state(),
    {
        match self {
            TcpStateEnum::Init(_) => StateTag::Init,
            TcpStateEnum::Listen(_) => StateTag::Listen,
            TcpStateEnum::Open(c) => c.conn.state(),
            TcpStateEnum::Closed(_) => StateTag::Closed,
        }
    }
}

/// `send` leaves a connection in its state, well-formed and without timers to set.
pub proof fn lemma_send_keeps_state(c: ConnectionView, bytes: Seq<u8>, len: int)
    ensures
        c.sent(bytes, len).tcb == c.tcb,
        c.sent(bytes, len).timers == c.timers,
{
}

/// A connection that has been accepted from a listener. It has to be finalized before the
/// listener is used again, so that its timers reach it.
pub struct AcceptedTcpState<X: Dependencies>(Child<X>);

impl<X: Dependencies> View for AcceptedTcpState<X> {
    type V = ConnectionView;

    closed spec fn view(&self) -> ConnectionView {
        self.0@
    }
}

impl<X: Dependencies> AcceptedTcpState<X> {
    /// The connection is well-formed, in ESTABLISHED or CLOSE-WAIT, and has no timers to
    /// set.
    pub closed spec fn wf(&self) -> bool {
        self.0.conn.wf() && can_be_accepted(self@.tcb.state) && self@.timers.len() == 0
    }

    /// The object through which the connection sets its timers.
    pub closed spec fn deps(&self) -> X {
        self.0.deps
    }

    /// The view of a well-formed accepted connection is a well-formed connection in
    /// ESTABLISHED or CLOSE-WAIT that has no timers to set.
    pub proof fn lemma_wf(&self)
        requires
            self.wf(),
        ensures
            self@.wf(),
            can_be_accepted(self@.tcb.state),
            self@.timers.len() == 0,
            TcpView::Open(self@).wf(),
    {
    }

    /// Calls `f` once, on the object through which the connection sets its timers, so that
    /// the caller can point that object and the timers set through it at the connection
    /// itself, now that the connection has left the listener. Gives the connection as a
    /// state of its own, which holds the object as `f` has left it.
    pub fn finalize<F: FnOnce(&mut X)>(self, f: F) -> (r: TcpState<X>)
        requires
            self.wf(),
            forall|x: &mut X| call_requires(f, (x,)),
        ensures
            r@ == TcpView::Open(self@),
            exists|x: &mut X|
                call_ensures(f, (x,), ()) && *x == self.deps() && *final(x) == r.deps(),
            r.objects() == only(r.deps()),
            r.wf(),
    {
        let mut child = self.0;
        f(&mut child.deps);
        TcpState(Some(TcpStateEnum::Open(child)))
    }

    /// The local end of the connection.
    pub fn local_addr(&self) -> (r: Endpoint)
        ensures
            r == self@.tcb.local,
    {
        self.0.conn.local_addr()
    }

    /// The peer's end of the connection.
    pub fn remote_addr(&self) -> (r: Endpoint)
        ensures
            r == self@.tcb.remote,
    {
        self.0.conn.remote_addr()
    }
}

/// The state of one TCP socket.
pub struct TcpState<X: Dependencies>(Option<TcpStateEnum<X>>);

impl<X: Dependencies> View for TcpState<X> {
    type V = TcpView;

    closed spec fn view(&self) -> TcpView {
        match self.0 {
            Some(s) => s@,
            None => TcpView::Init,
        }
    }
}

impl<X: Dependencies> TcpState<X> {
    /// The object holds a state, and the state is well-formed.
    pub closed spec fn wf(&self) -> bool {
        self.0 is Some && self@.wf()
    }

    /// A new state, which neither listens nor connects yet. It gets the time and sets its
    /// timers through `deps`.
    pub fn new(deps: X) -> (r: TcpState<X>)
        ensures
            r@ == TcpView::Init,
            r.objects() == only(deps),
            r.deps() == deps,
            r.wf(),
    {
        TcpState(Some(TcpStateEnum::Init(InitState { deps })))
    }

    /// Which of the thirteen states this is.
    pub fn state(&self) -> (r: StateTag)
        requires
            self.wf(),
        ensures
            r == self@.state(),
    {
        match &self.0 {
            Some(s) => s.state(),
            None => StateTag::Init,
        }
    }

    /// Takes the current state out, hands it to `f`, and stores the state that `f` gives
    /// back, which may be another kind of state altogether.
    fn with_state<T, F: FnOnce(TcpStateEnum<X>) -> (TcpStateEnum<X>, T)>(&mut self, f: F) -> (r: T)
        requires
            old(self).0 is Some,
            call_requires(f, (old(self).0->0,)),
        ensures
            final(self).0 is Some,
            call_ensures(f, (old(self).0->0,), (final(self).0->0, r)),
    {
        let state = self.0.take().unwrap();
        let (state, rv) = f(state);
        self.0 = Some(state);
        rv
    }

    /// Starts closing the socket.
    pub fn close(&mut self) -> (r: Result<(), CloseError>)
        requires
            old(self).wf(),
        ensures
            final(self)@ == old(self)@.closed().0,
            r == old(self)@.closed().1,
            final(self).objects() == old(self)@.close_objects(old(self).objects()),
            final(self).deps() == old(self).deps(),
            final(self).wf(),
    {
        let handler = |state: TcpStateEnum<X>| -> (out: (TcpStateEnum<X>, Result<(), CloseError>))
            requires
                state@.wf(),
            ensures
                out.0@ == state@.closed().0,
                out.1 == state@.closed().1,
                out.0.objects() == state@.close_objects(state.objects()),
                out.0@.wf(),
            {
                state.close()
            };
        self.with_state(handler)
    }
}

impl<X: Dependencies> TcpState<X> {
    /// The current time: what `current_time` of the state's `Dependencies` object gives.
    fn now(&self) -> (now: u64)
        requires
            self.wf(),
        ensures
            call_ensures(X::current_time, (&self.deps(),), now),
    {
        match &self.0 {
            Some(s) => s.now(),
            None => 0,
        }
    }

    /// The `Dependencies` object through which the state gets the time and sets its
    /// timers.
    pub closed spec fn deps(&self) -> X {
        self.0->0.deps()
    }

    /// The state's own `Dependencies` object and those of the connections that wait at
    /// it to be accepted.
    pub closed spec fn objects(&self) -> TimerObjects<X> {
        self.0->0.objects()
    }

    /// The view of a well-formed state is well-formed, so that what holds of every
    /// well-formed view holds of it. Its own object is the first of its timer objects; a
    /// listener has one more for every connection that waits, and no other state has more.
    pub proof fn lemma_wf(&self)
        requires
            self.wf(),
        ensures
            self@.wf(),
            self.objects().own == self.deps(),
            match self@ {
                TcpView::Listen(l) => self.objects().pending.len() == l.pending.len()
                    && self.objects().queue.len() == l.queue.len(),
                _ => self.objects() == only(self.deps()),
            },
    {
        match self.0->0 {
            TcpStateEnum::Listen(l) => {
                l.lemma_objects();
            },
            _ => {},
        }
        assert(self.0->0@ == self@);
    }

    /// Starts listening, with room for `backlog` connections that wait to be accepted,
    /// where `association` is what binding the socket has given.
    ///
    /// Only a new state can start to listen, and only if the binding has succeeded.
    pub fn listen_with<T, E>(&mut self, backlog: u32, association: Result<T, E>) -> (r: Result<
        T,
        ListenError<E>,
    >)
        requires
            old(self).wf(),
        ensures
            (final(self)@, r) == listen_outcome(old(self)@, backlog, association),
            final(self).objects() == old(self).objects(),
            final(self).deps() == old(self).deps(),
            final(self).wf(),
    {
        let handler = |state: TcpStateEnum<X>| -> (out: (TcpStateEnum<X>, Result<T, ListenError<E>>))
            requires
                state@.wf(),
            ensures
                (out.0@, out.1) == listen_outcome(state@, backlog, association),
                out.0.objects() == state.objects(),
                out.0@.wf(),
            {
                state.listen_with(backlog, association)
            };
        self.with_state(handler)
    }

    /// Starts listening, with room for `backlog` connections that wait to be accepted.
    /// `associate_fn` binds the socket; it is called only if the state is new.
    pub fn listen<T, E, F: FnOnce() -> Result<T, E>>(&mut self, backlog: u32, associate_fn: F) -> (r:
        Result<T, ListenError<E>>)
        requires
            old(self).wf(),
            call_requires(associate_fn, ()),
        ensures
            old(self)@ is Init ==> exists|a: Result<T, E>|
                call_ensures(associate_fn, (), a) && (final(self)@, r) == #[trigger] listen_outcome(
                    old(self)@,
                    backlog,
                    a,
                ),
            !(old(self)@ is Init) ==> final(self)@ == old(self)@ && r is Err && r->Err_0
                is InvalidState,
            final(self).objects() == old(self).objects(),
            final(self).deps() == old(self).deps(),
            final(self).wf(),
    {
        match self.state() {
            StateTag::Init => {
                let a = associate_fn();
                self.listen_with(backlog, a)
            },
            _ => Err(ListenError::InvalidState),
        }
    }

    /// Starts to connect to `addr` at the time `now`, where `association` is what binding
    /// the socket has given: the local address, and a value for the caller.
    ///
    /// Only a new state can start to connect, and only if the binding has succeeded. A
    /// state that is connecting says so, and one that has connected says that.
    pub fn connect_with<T, E>(
        &mut self,
        now: u64,
        addr: Endpoint,
        association: Result<(Endpoint, T), E>,
    ) -> (r: Result<T, ConnectError<E>>)
        requires
            old(self).wf(),
        ensures
            (final(self)@, r) == connect_outcome(old(self)@, now, addr, association),
            old(self)@.connect_registers(old(self).objects(), final(self).objects(), now, addr, bound(association)),
            final(self).deps() == old(self).deps(),
            final(self).wf(),
    {
        let handler = |state: TcpStateEnum<X>| -> (out: (TcpStateEnum<X>, Result<T, ConnectError<E>>))
            requires
                state@.wf(),
            ensures
                (out.0@, out.1) == connect_outcome(state@, now, addr, association),
                state@.connect_registers(state.objects(), out.0.objects(), now, addr, bound(association)),
                out.0@.wf(),
            {
                state.connect_with(now, addr, association)
            };
        self.with_state(handler)
    }

    /// Starts to connect to `addr` at the time `now`. `associate_fn` binds the socket; it
    /// is called only if the state is new.
    pub fn connect_at<T, E, F: FnOnce() -> Result<(Endpoint, T), E>>(
        &mut self,
        now: u64,
        addr: Endpoint,
        associate_fn: F,
    ) -> (r: Result<T, ConnectError<E>>)
        requires
            old(self).wf(),
            call_requires(associate_fn, ()),
        ensures
            old(self)@ is Init ==> exists|a: Result<(Endpoint, T), E>|
                call_ensures(associate_fn, (), a) && (final(self)@, r)
                    == #[trigger] connect_outcome(old(self)@, now, addr, a) && old(
                    self,
                )@.connect_registers(old(self).objects(), final(self).objects(), now, addr, bound(a)),
            !(old(self)@ is Init) ==> final(self).objects() == old(self).objects(),
            !(old(self)@ is Init) ==> final(self)@ == old(self)@ && r is Err && (match r->Err_0 {
                ConnectError::InvalidState => !(old(self)@ is Open),
                ConnectError::InProgress => old(self)@ is Open && old(
                    self,
                )@.state().is_handshake(),
                ConnectError::AlreadyConnected => old(self)@ is Open && !old(
                    self,
                )@.state().is_handshake(),
                ConnectError::FailedAssociation(_) => false,
            }),
            final(self).deps() == old(self).deps(),
            final(self).wf(),
    {
        match self.state() {
            StateTag::Init => {
                let a = associate_fn();
                self.connect_with(now, addr, a)
            },
            StateTag::Listen | StateTag::Closed => Err(ConnectError::InvalidState),
            StateTag::SynSent | StateTag::SynReceived => Err(ConnectError::InProgress),
            _ => Err(ConnectError::AlreadyConnected),
        }
    }

    /// Starts to connect to `addr`. `associate_fn` binds the socket; it is called only if
    /// the state is new.
    pub fn connect<T, E, F: FnOnce() -> Result<(Endpoint, T), E>>(
        &mut self,
        addr: Endpoint,
        associate_fn: F,
    ) -> (r: Result<T, ConnectError<E>>)
        requires
            old(self).wf(),
            call_requires(associate_fn, ()),
        ensures
            old(self)@ is Init ==> exists|now: u64, a: Result<(Endpoint, T), E>|
                call_ensures(X::current_time, (&old(self).deps(),), now) && call_ensures(
                    associate_fn,
                    (),
                    a,
                ) && (final(self)@, r) == #[trigger] connect_outcome(old(self)@, now, addr, a)
                    && old(self)@.connect_registers(
                    old(self).objects(),
                    final(self).objects(),
                    now,
                    addr,
                    bound(a),
                ),
            !(old(self)@ is Init) ==> final(self).objects() == old(self).objects(),
            !(old(self)@ is Init) ==> final(self)@ == old(self)@ && r is Err && (match r->Err_0 {
                ConnectError::InvalidState => !(old(self)@ is Open),
                ConnectError::InProgress => old(self)@ is Open && old(
                    self,
                )@.state().is_handshake(),
                ConnectError::AlreadyConnected => old(self)@ is Open && !old(
                    self,
                )@.state().is_handshake(),
                ConnectError::FailedAssociation(_) => false,
            }),
            final(self).deps() == old(self).deps(),
            final(self).wf(),
    {
        let now = self.now();
        self.connect_at(now, addr, associate_fn)
    }

    /// Takes the oldest connection whose handshake is complete from a listener. The
    /// connection has to be finalized at once.
    pub fn accept(&mut self) -> (r: Result<AcceptedTcpState<X>, AcceptError>)
        requires
            old(self).wf(),
        ensures
            final(self)@ == old(self)@.accepted().0,
            match r {
                Ok(a) => old(self)@.accepted().1 == Ok::<ConnectionView, AcceptError>(a@)
                    && a.wf(),
                Err(e) => old(self)@.accepted().1 == Err::<ConnectionView, AcceptError>(e),
            },
            final(self).objects() == old(self)@.accept_objects(old(self).objects()),
            r matches Ok(a) ==> a.deps() == old(self).objects().queue[0],
            final(self).deps() == old(self).deps(),
            final(self).wf(),
    {
        let handler = |state: TcpStateEnum<X>| -> (out: (
            TcpStateEnum<X>,
            Result<AcceptedTcpState<X>, AcceptError>,
        ))
            requires
                state@.wf(),
            ensures
                out.0@ == state@.accepted().0,
                match out.1 {
                    Ok(a) => state@.accepted().1 == Ok::<ConnectionView, AcceptError>(a@)
                        && a.wf(),
                    Err(e) => state@.accepted().1 == Err::<ConnectionView, AcceptError>(e),
                },
                out.0.objects() == state@.accept_objects(state.objects()),
                out.1 matches Ok(a) ==> a.deps() == state.objects().queue[0],
                out.0@.wf(),
            {
                state.accept()
            };
        self.with_state(handler)
    }

    /// Takes up to `len` bytes from the front of `reader` for sending and gives the number
    /// taken.
    pub fn send(&mut self, reader: &[u8], len: usize) -> (r: Result<usize, SendError>)
        requires
            old(self).wf(),
        ensures
            r == old(self)@.send_result(reader@.len() as int, len as int),
            final(self)@ == old(self)@.sent(reader@, len as int),
            final(self).objects() == old(self).objects(),
            final(self).deps() == old(self).deps(),
            final(self).wf(),
    {
        let handler = |state: TcpStateEnum<X>| -> (out: (TcpStateEnum<X>, Result<usize, SendError>))
            requires
                state@.wf(),
            ensures
                out.0@ == state@.sent(reader@, len as int),
                out.1 == state@.send_result(reader@.len() as int, len as int),
                out.0.objects() == state.objects(),
                out.0@.wf(),
            {
                state.send(reader, len)
            };
        self.with_state(handler)
    }

    /// Moves up to `len` received bytes to the end of `writer`, at the time `now`, and
    /// gives their number.
    pub fn recv_at(&mut self, now: u64, writer: &mut Vec<u8>, len: usize) -> (r: Result<
        usize,
        RecvError,
    >)
        requires
            old(self).wf(),
        ensures
            r == old(self)@.recv_result(len as int),
            final(writer)@ == old(writer)@ + old(self)@.recv_bytes(len as int),
            final(self)@ == old(self)@.received(now, len as int),
            old(self)@.recv_registers(old(self).objects(), final(self).objects(), now, len as int),
            final(self).deps() == old(self).deps(),
            final(self).wf(),
    {
        // the handler writes through `writer`, which a closure cannot borrow
        let state = self.0.take().unwrap();
        let (state, r) = state.recv(now, writer, len);
        self.0 = Some(state);
        r
    }

    /// Moves up to `len` received bytes to the end of `writer` and gives their number.
    pub fn recv(&mut self, writer: &mut Vec<u8>, len: usize) -> (r: Result<usize, RecvError>)
        requires
            old(self).wf(),
        ensures
            r == old(self)@.recv_result(len as int),
            final(writer)@ == old(writer)@ + old(self)@.recv_bytes(len as int),
            exists|now: u64|
                call_ensures(X::current_time, (&old(self).deps(),), now) && final(self)@
                    == #[trigger] old(self)@.received(now, len as int) && old(
                    self,
                )@.recv_registers(old(self).objects(), final(self).objects(), now, len as int),
            final(self).deps() == old(self).deps(),
            final(self).wf(),
    {
        let now = self.now();
        self.recv_at(now, writer, len)
    }

    /// Takes in a segment with the header `header` and the bytes `payload` that arrived at
    /// the time `now`.
    pub fn push_packet_at(&mut self, now: u64, header: &TcpHeader, payload: Bytes) -> (r: Result<
        (),
        PushPacketError,
    >)
        requires
            old(self).wf(),
        ensures
            r == old(self)@.push_result(),
            final(self)@ == old(self)@.pushed(now, *header, payload_bytes(payload)),
            old(self)@.push_registers(
                old(self).objects(),
                final(self).objects(),
                now,
                *header,
                payload_bytes(payload),
            ),
            final(self).deps() == old(self).deps(),
            final(self).wf(),
    {
        let bytes: Vec<u8> = vec_from_bytes(payload);
        let handler = |state: TcpStateEnum<X>| -> (out: (
            TcpStateEnum<X>,
            Result<(), PushPacketError>,
        ))
            requires
                state@.wf(),
            ensures
                out.0@ == state@.pushed(now, *header, bytes@),
                out.1 == state@.push_result(),
                state@.push_registers(state.objects(), out.0.objects(), now, *header, bytes@),
                out.0@.wf(),
            {
                state.push_packet(now, header, bytes.as_slice())
            };
        self.with_state(handler)
    }

    /// Takes in a segment with the header `header` and the bytes `payload`.
    pub fn push_packet(&mut self, header: &TcpHeader, payload: Bytes) -> (r: Result<
        (),
        PushPacketError,
    >)
        requires
            old(self).wf(),
        ensures
            r == old(self)@.push_result(),
            exists|now: u64|
                call_ensures(X::current_time, (&old(self).deps(),), now) && final(self)@
                    == #[trigger] old(self)@.pushed(now, *header, payload_bytes(payload)) && old(
                    self,
                )@.push_registers(
                    old(self).objects(),
                    final(self).objects(),
                    now,
                    *header,
                    payload_bytes(payload),
                ),
            final(self).deps() == old(self).deps(),
            final(self).wf(),
    {
        let now = self.now();
        self.push_packet_at(now, header, payload)
    }

    /// Gives the next segment for the wire at the time `now`.
    pub fn pop_packet_at(&mut self, now: u64) -> (r: Result<(TcpHeader, Bytes), PopPacketError>)
        requires
            old(self).wf(),
        ensures
            final(self)@ == old(self)@.popped(now).0,
            match r {
                Ok((h, b)) => old(self)@.popped(now).1 == Ok::<SegmentView, PopPacketError>(
                    SegmentView { header: h, payload: payload_bytes(b) },
                ),
                Err(e) => old(self)@.popped(now).1 == Err::<SegmentView, PopPacketError>(e),
            },
            old(self)@.wants_to_send() ==> r is Ok,
            old(self)@.pop_registers(old(self).objects(), final(self).objects(), now),
            final(self).deps() == old(self).deps(),
            final(self).wf(),
    {
        let handler = |state: TcpStateEnum<X>| -> (out: (
            TcpStateEnum<X>,
            Result<Segment, PopPacketError>,
        ))
            requires
                state@.wf(),
            ensures
                out.0@ == state@.popped(now).0,
                match out.1 {
                    Ok(seg) => state@.popped(now).1 == Ok::<SegmentView, PopPacketError>(seg@),
                    Err(e) => state@.popped(now).1 == Err::<SegmentView, PopPacketError>(e),
                },
                state@.wants_to_send() ==> out.1 is Ok,
                state@.pop_registers(state.objects(), out.0.objects(), now),
                out.0@.wf(),
            {
                state.pop_packet(now)
            };
        let r = self.with_state(handler);
        match r {
            Ok(seg) => Ok((seg.header, bytes_from_vec(seg.payload))),
            Err(e) => Err(e),
        }
    }

    /// Gives the next segment for the wire.
    pub fn pop_packet(&mut self) -> (r: Result<(TcpHeader, Bytes), PopPacketError>)
        requires
            old(self).wf(),
        ensures
            exists|now: u64|
                call_ensures(X::current_time, (&old(self).deps(),), now) && final(self)@ == (
                #[trigger] old(self)@.popped(now)).0 && (match r {
                    Ok((h, b)) => old(self)@.popped(now).1 == Ok::<SegmentView, PopPacketError>(
                        SegmentView { header: h, payload: payload_bytes(b) },
                    ),
                    Err(e) => old(self)@.popped(now).1 == Err::<SegmentView, PopPacketError>(e),
                }) && old(self)@.pop_registers(old(self).objects(), final(self).objects(), now),
            old(self)@.wants_to_send() ==> r is Ok,
            final(self).deps() == old(self).deps(),
            final(self).wf(),
    {
        let now = self.now();
        self.pop_packet_at(now)
    }

    /// Takes in that the timer `timer` fired at the time `now`. `by` tells whether the
    /// state itself had set the timer or one of the connections that wait at it.
    pub fn on_timer_at(&mut self, now: u64, timer: &Timer, by: TimerRegisteredBy)
        requires
            old(self).wf(),
        ensures
            final(self)@ == old(self)@.timer_fired(now, *timer, by),
            old(self)@.timer_registers(old(self).objects(), final(self).objects(), now, *timer, by),
            final(self).deps() == old(self).deps(),
            final(self).wf(),
    {
        let handler = |state: TcpStateEnum<X>| -> (out: (TcpStateEnum<X>, ()))
            requires
                state@.wf(),
            ensures
                out.0@ == state@.timer_fired(now, *timer, by),
                state@.timer_registers(state.objects(), out.0.objects(), now, *timer, by),
                out.0@.wf(),
            {
                (state.on_timer(now, timer, by), ())
            };
        self.with_state(handler)
    }

    /// Takes in that the timer `timer` fired. `by` tells whether the state itself had set
    /// the timer or one of the connections that wait at it.
    pub fn on_timer(&mut self, timer: &Timer, by: TimerRegisteredBy)
        requires
            old(self).wf(),
        ensures
            exists|now: u64|
                call_ensures(X::current_time, (&old(self).deps(),), now) && final(self)@
                    == #[trigger] old(self)@.timer_fired(now, *timer, by) && old(
                    self,
                )@.timer_registers(old(self).objects(), final(self).objects(), now, *timer, by),
            final(self).deps() == old(self).deps(),
            final(self).wf(),
    {
        let now = self.now();
        self.on_timer_at(now, timer, by)
    }

    /// Gives the latched error and forgets it.
    pub fn clear_error(&mut self) -> (r: Option<TcpError>)
        requires
            old(self).wf(),
        ensures
            r == old(self)@.error(),
            final(self)@ == old(self)@.error_cleared(),
            final(self)@.error() is None,
            final(self).objects() == old(self).objects(),
            final(self).deps() == old(self).deps(),
            final(self).wf(),
    {
        match &mut self.0 {
            Some(s) => s.clear_error(),
            None => None,
        }
    }

    /// Reports which operations can make progress and how far the connection has come.
    pub fn poll(&self) -> (r: PollState)
        requires
            self.wf(),
        ensures
            r == PollState::of(self@.readiness()),
    {
        match &self.0 {
            Some(s) => PollState::from_readiness(s.readiness()),
            None => PollState::empty(),
        }
    }

    /// Whether the state has something for the wire.
    pub fn wants_to_send(&self) -> (r: bool)
        requires
            self.wf(),
        ensures
            r == self@.wants_to_send(),
    {
        match &self.0 {
            Some(s) => s.wants_to_send(),
            None => false,
        }
    }

    /// The control block of the connection, for a look at its sequence numbers, windows
    /// and timers.
    pub fn control_block(&self) -> (r: Option<crate::connection::Tcb>)
        requires
            self.wf(),
        ensures
            r == self@.control_block(),
    {
        match &self.0 {
            Some(s) => s.control_block(),
            None => None,
        }
    }

    /// The number of bytes that `send` would take now.
    pub fn send_room(&self) -> (r: usize)
        requires
            self.wf(),
        ensures
            r == self@.send_room(),
    {
        match &self.0 {
            Some(s) => s.send_room(),
            None => 0,
        }
    }

    /// The local and the remote end, if the state is or was a connection.
    pub fn local_remote_addrs(&self) -> (r: Option<(Endpoint, Endpoint)>)
        requires
            self.wf(),
        ensures
            r == self@.addrs(),
    {
        match &self.0 {
            Some(s) => s.local_remote_addrs(),
            None => None,
        }
    }
}

impl<X: Dependencies> TcpStateEnum<X> {
    /// The object through which the state gets the time and sets its timers.
    spec fn deps(&self) -> X {
        self.objects().own
    }

    /// The state's own timer object and those of the connections that wait at it.
    spec fn objects(&self) -> TimerObjects<X> {
        match self {
            TcpStateEnum::Init(s) => only(s.deps),
            TcpStateEnum::Listen(l) => l.objects(),
            TcpStateEnum::Open(c) => only(c.deps),
            TcpStateEnum::Closed(d) => only(d.deps),
        }
    }
}

} // verus!
