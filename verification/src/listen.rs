//! The listening state: the connections that peers have opened and the application has not
//! accepted yet.
//!
//! A connection that a SYN has opened waits among the pending ones until its handshake is
//! complete. It then moves to the end of the accept queue, from whose front `accept` takes.
//!
//! Pending and queued connections together are never more than the backlog. The backlog
//! bounds the accept queue; a pending connection counts against it as well, because it
//! takes its place in the queue the moment its handshake is complete, and the queue has no
//! way then to turn it down. So a SYN is dropped, without an answer, as soon as the queue
//! would be full if every handshake that is going on were completed. With nothing pending
//! this is the full accept queue itself.

use vstd::prelude::*;
use crate::connection::{Connection, ConnectionView, Segment, SegmentView, StateTag, segment_views};
use crate::error::{AcceptError, PopPacketError};
use crate::flags::{Readiness, TcpFlags};
use crate::header::{Endpoint, Ipv4Header, TcpHeader};
use crate::timer::{Dependencies, Timer};

verus! {

/// A connection together with the object through which its timers are set.
pub struct Child<X: Dependencies> {
    pub conn: Connection,
    pub deps: X,
}

impl<X: Dependencies> View for Child<X> {
    type V = ConnectionView;

    open spec fn view(&self) -> ConnectionView {
        self.conn@
    }
}

/// The objects through which a state and the connections that wait at it get the time and
/// set their timers: the state's own, and one for every connection, in the order in which
/// the connections stand.
pub struct TimerObjects<X> {
    /// The object of the state itself.
    pub own: X,
    /// The objects of the connections whose handshake is going on.
    pub pending: Seq<X>,
    /// The objects of the connections in the accept queue.
    pub queue: Seq<X>,
}

/// The objects of a state that holds no connections for a later `accept`.
pub open spec fn only<X>(own: X) -> TimerObjects<X> {
    TimerObjects { own, pending: Seq::empty(), queue: Seq::empty() }
}

/// Every timer of `timers` has been handed to `register_timer` of `deps`, for the instant
/// for which it was asked.
pub open spec fn registered<X: Dependencies>(deps: X, timers: Seq<Timer>) -> bool {
    forall|k: int|
        0 <= k < timers.len() ==> call_ensures(
            X::register_timer,
            (&deps, (#[trigger] timers[k]).at, timers[k]),
            (),
        )
}

/// The objects after the queued connection at `i` has become `c`: the connection keeps its
/// object as long as it stays.
pub open spec fn queued_objects<X>(o: TimerObjects<X>, i: int, c: ConnectionView) -> TimerObjects<
    X,
> {
    if can_be_accepted(c.tcb.state) {
        o
    } else {
        TimerObjects { queue: o.queue.remove(i), ..o }
    }
}

/// The objects after the pending connection at `i` has become `c`: the connection keeps
/// its object as long as it stays, and takes it along to the accept queue.
pub open spec fn pending_objects<X>(o: TimerObjects<X>, i: int, c: ConnectionView) -> TimerObjects<
    X,
> {
    if c.tcb.state == StateTag::SynReceived {
        o
    } else if can_be_accepted(c.tcb.state) {
        TimerObjects { pending: o.pending.remove(i), queue: o.queue.push(o.pending[i]), ..o }
    } else {
        TimerObjects { pending: o.pending.remove(i), ..o }
    }
}

/// The timer objects of a sequence of children.
pub open spec fn child_deps<X: Dependencies>(s: Seq<Child<X>>) -> Seq<X> {
    Seq::new(s.len(), |i: int| s[i].deps)
}

/// The views of a sequence of children.
pub open spec fn child_views<X: Dependencies>(s: Seq<Child<X>>) -> Seq<ConnectionView> {
    Seq::new(s.len(), |i: int| s[i]@)
}

/// The first place from `from` on at which a connection between `local` and `remote`
/// stands; the number of connections if there is none.
pub open spec fn position(
    children: Seq<ConnectionView>,
    local: Endpoint,
    remote: Endpoint,
    from: int,
) -> int
    decreases children.len() - from,
{
    if from >= children.len() {
        children.len() as int
    } else if children[from].tcb.local == local && children[from].tcb.remote == remote {
        from
    } else {
        position(children, local, remote, from + 1)
    }
}

/// The first place from `from` on at which a connection stands that has something for the
/// wire; the number of connections if there is none.
pub open spec fn first_sender(children: Seq<ConnectionView>, from: int) -> int
    decreases children.len() - from,
{
    if from >= children.len() {
        children.len() as int
    } else if children[from].wants_to_send() {
        from
    } else {
        first_sender(children, from + 1)
    }
}

/// The resets that are sent for connections that are given up.
pub open spec fn aborts(children: Seq<ConnectionView>) -> Seq<SegmentView> {
    Seq::new(children.len(), |i: int| children[i].abort_segment())
}

/// The reset that answers a segment with the header `h` that belongs to no connection: it
/// goes back to where `h` came from and takes its sequence number from the acknowledgment
/// of `h`.
pub open spec fn stray_reset(h: TcpHeader) -> SegmentView {
    SegmentView {
        header: TcpHeader {
            ip: Ipv4Header { src: h.ip.dst, dst: h.ip.src },
            flags: TcpFlags::of_control(false, false, true, false, false),
            src_port: h.dst_port,
            dst_port: h.src_port,
            seq: h.ack,
            ack: 0,
            window_size: 0,
            selective_acks: None,
            window_scale: None,
            timestamp: None,
            timestamp_echo: None,
        },
        payload: Seq::empty(),
    }
}

/// A connection in this state can be accepted.
pub open spec fn can_be_accepted(state: StateTag) -> bool {
    state == StateTag::Established || state == StateTag::CloseWait
}

/// The mathematical content of a [`ListenState`].
pub struct ListenView {
    /// The most connections that the accept queue holds. Connections whose handshake is
    /// going on count against it too, as each of them will take a place in the queue.
    pub backlog: u32,
    /// The connections whose handshake is not complete, the oldest first.
    pub pending: Seq<ConnectionView>,
    /// The accept queue: the connections whose handshake is complete, in the order in
    /// which they were completed.
    pub queue: Seq<ConnectionView>,
    /// The segments that the listener itself has ready for the wire.
    pub egress: Seq<SegmentView>,
}

impl ListenView {
    pub open spec fn wf(self) -> bool {
        &&& self.pending.len() + self.queue.len() <= self.backlog
        &&& forall|i: int|
            0 <= i < self.pending.len() ==> {
                let c = #[trigger] self.pending[i];
                c.wf() && c.timers.len() == 0 && c.tcb.state == StateTag::SynReceived
            }
        &&& forall|i: int|
            0 <= i < self.queue.len() ==> {
                let c = #[trigger] self.queue[i];
                c.wf() && c.timers.len() == 0 && can_be_accepted(c.tcb.state)
            }
    }

    /// A listener without connections.
    pub open spec fn empty(backlog: u32) -> ListenView {
        ListenView { backlog, pending: Seq::empty(), queue: Seq::empty(), egress: Seq::empty() }
    }

    /// The listener after the queued connection at `i` has become `c`: it stays in the
    /// queue as long as it can be accepted, and is dropped if not.
    pub open spec fn with_queued(self, i: int, c: ConnectionView) -> ListenView {
        if can_be_accepted(c.tcb.state) {
            ListenView { queue: self.queue.update(i, c), ..self }
        } else {
            ListenView { queue: self.queue.remove(i), ..self }
        }
    }

    /// The listener after the pending connection at `i` has become `c`: it stays pending
    /// while it is in SYN-RECEIVED, moves to the end of the accept queue once it can be
    /// accepted, and is dropped otherwise.
    pub open spec fn with_pending(self, i: int, c: ConnectionView) -> ListenView {
        if c.tcb.state == StateTag::SynReceived {
            ListenView { pending: self.pending.update(i, c), ..self }
        } else if can_be_accepted(c.tcb.state) {
            ListenView { pending: self.pending.remove(i), queue: self.queue.push(c), ..self }
        } else {
            ListenView { pending: self.pending.remove(i), ..self }
        }
    }

    /// The listener after a segment with the header `h` and the bytes `payload` arrived at
    /// the time `now`.
    ///
    /// A segment of a connection that waits here goes to that connection. Of the others a
    /// reset is dropped, a segment with an acknowledgment is answered with a reset, and a
    /// SYN opens a new pending connection unless the backlog is used up, in which case it
    /// is dropped without an answer. The backlog is used up when the accept queue, with
    /// the pending connections counted as if they were in it already, is full. Everything
    /// else is dropped.
    pub open spec fn pushed(self, now: u64, h: TcpHeader, payload: Seq<u8>) -> ListenView {
        let q = position(self.queue, h.destination(), h.source(), 0);
        let p = position(self.pending, h.destination(), h.source(), 0);
        if q < self.queue.len() {
            self.with_queued(q, self.queue[q].pushed(now, h, payload).flushed())
        } else if p < self.pending.len() {
            self.with_pending(p, self.pending[p].pushed(now, h, payload).flushed())
        } else if h.flags.has(TcpFlags::RST) {
            self
        } else if h.flags.has(TcpFlags::ACK) {
            ListenView { egress: self.egress.push(stray_reset(h)), ..self }
        } else if h.flags.has(TcpFlags::SYN) && self.pending.len() + self.queue.len()
            < self.backlog {
            ListenView {
                pending: self.pending.push(ConnectionView::passive(now, h).flushed()),
                ..self
            }
        } else {
            self
        }
    }

    /// The listener has something for the wire: a segment of its own, or a connection that
    /// has something.
    pub open spec fn wants_to_send(self) -> bool {
        self.egress.len() > 0 || first_sender(self.pending, 0) < self.pending.len()
            || first_sender(self.queue, 0) < self.queue.len()
    }

    /// The listener after the host asked for a segment at the time `now`, and what the host
    /// gets: the listener's own segments go first, then those of the first pending
    /// connection that has something, then those of the first queued one.
    pub open spec fn popped(self, now: u64) -> (ListenView, Result<SegmentView, PopPacketError>) {
        let p = first_sender(self.pending, 0);
        let q = first_sender(self.queue, 0);
        if self.egress.len() > 0 {
            (ListenView { egress: self.egress.drop_first(), ..self }, Ok(self.egress[0]))
        } else if p < self.pending.len() {
            (
                ListenView {
                    pending: self.pending.update(p, self.pending[p].popped(now).0.flushed()),
                    ..self
                },
                self.pending[p].popped(now).1,
            )
        } else if q < self.queue.len() {
            (
                ListenView {
                    queue: self.queue.update(q, self.queue[q].popped(now).0.flushed()),
                    ..self
                },
                self.queue[q].popped(now).1,
            )
        } else {
            (self, Err(PopPacketError::NoPacket))
        }
    }

    /// The listener after the timer `t`, which one of its connections had set, fired at the
    /// time `now`. A timer of a connection that does not wait here any more changes
    /// nothing.
    pub open spec fn timer_fired(self, now: u64, t: Timer) -> ListenView {
        let q = position(self.queue, t.local, t.remote, 0);
        let p = position(self.pending, t.local, t.remote, 0);
        if q < self.queue.len() {
            self.with_queued(q, self.queue[q].timer_fired(now, t).flushed())
        } else if p < self.pending.len() {
            self.with_pending(p, self.pending[p].timer_fired(now, t).flushed())
        } else {
            self
        }
    }

    /// A SYN with the header `h` opens a new connection: it belongs to no connection that
    /// waits here, it is a SYN and nothing else, and the backlog is not used up.
    pub open spec fn opens(self, h: TcpHeader) -> bool {
        &&& position(self.queue, h.destination(), h.source(), 0) >= self.queue.len()
        &&& position(self.pending, h.destination(), h.source(), 0) >= self.pending.len()
        &&& !h.flags.has(TcpFlags::RST)
        &&& !h.flags.has(TcpFlags::ACK)
        &&& h.flags.has(TcpFlags::SYN)
        &&& self.pending.len() + self.queue.len() < self.backlog
    }

    /// What a segment does to the timer objects. The timers that the connection asks for
    /// that the segment goes to are set through that connection's own object. A connection
    /// that a SYN opens gets its object from `fork` of the listener's own, and its first
    /// timer is set through it.
    pub open spec fn push_registers<X: Dependencies>(
        self,
        before: TimerObjects<X>,
        after: TimerObjects<X>,
        now: u64,
        h: TcpHeader,
        payload: Seq<u8>,
    ) -> bool {
        let q = position(self.queue, h.destination(), h.source(), 0);
        let p = position(self.pending, h.destination(), h.source(), 0);
        if q < self.queue.len() {
            let c = self.queue[q].pushed(now, h, payload);
            registered(before.queue[q], c.timers) && after == queued_objects(before, q, c)
        } else if p < self.pending.len() {
            let c = self.pending[p].pushed(now, h, payload);
            registered(before.pending[p], c.timers) && after == pending_objects(before, p, c)
        } else if self.opens(h) {
            exists|d: X| #[trigger]
                call_ensures(X::fork, (&before.own,), d) && registered(
                    d,
                    ConnectionView::passive(now, h).timers,
                ) && after == (TimerObjects { pending: before.pending.push(d), ..before })
        } else {
            after == before
        }
    }

    /// What handing out a segment does to the timer objects: they stay, and the timers
    /// that the connection asks for whose segment goes out are set through that
    /// connection's own object.
    pub open spec fn pop_registers<X: Dependencies>(
        self,
        before: TimerObjects<X>,
        after: TimerObjects<X>,
        now: u64,
    ) -> bool {
        let p = first_sender(self.pending, 0);
        let q = first_sender(self.queue, 0);
        &&& after == before
        &&& if self.egress.len() > 0 {
            true
        } else if p < self.pending.len() {
            registered(before.pending[p], self.pending[p].popped(now).0.timers)
        } else if q < self.queue.len() {
            registered(before.queue[q], self.queue[q].popped(now).0.timers)
        } else {
            true
        }
    }

    /// What a timer of a connection that waits here does to the timer objects: the timers
    /// that the connection asks for are set through that connection's own object.
    pub open spec fn timer_registers<X: Dependencies>(
        self,
        before: TimerObjects<X>,
        after: TimerObjects<X>,
        now: u64,
        t: Timer,
    ) -> bool {
        let q = position(self.queue, t.local, t.remote, 0);
        let p = position(self.pending, t.local, t.remote, 0);
        if q < self.queue.len() {
            let c = self.queue[q].timer_fired(now, t);
            registered(before.queue[q], c.timers) && after == queued_objects(before, q, c)
        } else if p < self.pending.len() {
            let c = self.pending[p].timer_fired(now, t);
            registered(before.pending[p], c.timers) && after == pending_objects(before, p, c)
        } else {
            after == before
        }
    }

    /// The timer objects after `accept`: the connection that is taken takes its object
    /// along.
    pub open spec fn accept_objects<X>(self, before: TimerObjects<X>) -> TimerObjects<X> {
        if self.queue.len() > 0 {
            TimerObjects { queue: before.queue.drop_first(), ..before }
        } else {
            before
        }
    }

    /// The timer `t` still applies: the connection that set it still waits here, and says
    /// that it applies.
    pub open spec fn timer_applies(self, t: Timer) -> bool {
        let q = position(self.queue, t.local, t.remote, 0);
        let p = position(self.pending, t.local, t.remote, 0);
        if q < self.queue.len() {
            self.queue[q].timer_applies(t)
        } else if p < self.pending.len() {
            self.pending[p].timer_applies(t)
        } else {
            false
        }
    }

    /// The listener after `accept`, and what the application gets: the connection at the
    /// front of the accept queue, if there is one.
    pub open spec fn accepted(self) -> (ListenView, Result<ConnectionView, AcceptError>) {
        if self.queue.len() > 0 {
            (ListenView { queue: self.queue.drop_first(), ..self }, Ok(self.queue[0]))
        } else {
            (self, Err(AcceptError::NothingToAccept))
        }
    }

    /// The segments that are left for the wire when the listener is closed: its own, and a
    /// reset for every connection that waits, the pending ones first.
    pub open spec fn residue(self) -> Seq<SegmentView> {
        self.egress + aborts(self.pending) + aborts(self.queue)
    }

    /// What `poll` reports of the listener.
    pub open spec fn readiness(self) -> Readiness {
        Readiness {
            readable: false,
            writable: false,
            error: false,
            recv_closed: false,
            send_closed: false,
            ready_to_accept: self.queue.len() > 0,
            established: false,
            closed: false,
        }
    }
}

/// Has the timers that `conn` wants set registered through `deps`.
pub fn flush<X: Dependencies>(conn: &mut Connection, deps: &X)
    requires
        old(conn).wf(),
    ensures
        final(conn)@ == old(conn)@.flushed(),
        final(conn).wf(),
        registered(*deps, old(conn)@.timers),
{
    let timers: Vec<Timer> = conn.take_timers();
    let mut i: usize = 0;
    while i < timers.len()
        invariant
            i <= timers.len(),
            forall|k: int|
                0 <= k < i ==> call_ensures(
                    X::register_timer,
                    (deps, (#[trigger] timers@[k]).at, timers@[k]),
                    (),
                ),
        decreases timers.len() - i,
    {
        let t: Timer = timers[i];
        deps.register_timer(t.at, t);
        i = i + 1;
    }
}

/// Executable form of [`position`] from the first place on.
fn find<X: Dependencies>(children: &Vec<Child<X>>, local: Endpoint, remote: Endpoint) -> (r: usize)
    ensures
        r == position(child_views(children@), local, remote, 0),
        r <= children@.len(),
{
    let mut i: usize = 0;
    while i < children.len()
        invariant
            i <= children@.len(),
            position(child_views(children@), local, remote, 0) == position(
                child_views(children@),
                local,
                remote,
                i as int,
            ),
        decreases children@.len() - i,
    {
        let l = children[i].conn.local_addr();
        let r = children[i].conn.remote_addr();
        assert(child_views(children@)[i as int] == children@[i as int]@);
        if l.ip == local.ip && l.port == local.port && r.ip == remote.ip && r.port == remote.port {
            return i;
        }
        i = i + 1;
    }
    i
}

/// Executable form of [`first_sender`] from the first place on.
fn find_sender<X: Dependencies>(children: &Vec<Child<X>>) -> (r: usize)
    requires
        forall|i: int| 0 <= i < children@.len() ==> (#[trigger] children@[i]).conn.wf(),
    ensures
        r == first_sender(child_views(children@), 0),
        r <= children@.len(),
        r < children@.len() ==> children@[r as int]@.wants_to_send(),
{
    let mut i: usize = 0;
    while i < children.len()
        invariant
            i <= children@.len(),
            forall|k: int| 0 <= k < children@.len() ==> (#[trigger] children@[k]).conn.wf(),
            first_sender(child_views(children@), 0) == first_sender(
                child_views(children@),
                i as int,
            ),
        decreases children@.len() - i,
    {
        assert(child_views(children@)[i as int] == children@[i as int]@);
        if children[i].conn.wants_to_send() {
            return i;
        }
        i = i + 1;
    }
    i
}

/// Appends a reset for every one of `children` to `out`.
fn push_aborts<X: Dependencies>(out: &mut Vec<Segment>, children: &Vec<Child<X>>)
    ensures
        segment_views(final(out)@) == segment_views(old(out)@) + aborts(child_views(children@)),
{
    let mut i: usize = 0;
    assert(segment_views(out@) =~= segment_views(old(out)@) + aborts(
        child_views(children@),
    ).take(0));
    while i < children.len()
        invariant
            i <= children@.len(),
            segment_views(out@) == segment_views(old(out)@) + aborts(child_views(children@)).take(
                i as int,
            ),
        decreases children@.len() - i,
    {
        let ghost before = out@;
        let seg = children[i].conn.abort_segment();
        assert(child_views(children@)[i as int] == children@[i as int]@);
        out.push(seg);
        assert(segment_views(out@) =~= segment_views(before).push(seg@));
        assert(segment_views(out@) =~= segment_views(old(out)@) + aborts(
            child_views(children@),
        ).take(i as int + 1));
        i = i + 1;
    }
    assert(aborts(child_views(children@)).take(i as int) =~= aborts(child_views(children@)));
}

/// Executable form of [`stray_reset`].
fn reset_for(h: &TcpHeader) -> (r: Segment)
    ensures
        r@ == stray_reset(*h),
{
    Segment {
        header: TcpHeader {
            ip: Ipv4Header { src: h.ip.dst, dst: h.ip.src },
            flags: TcpFlags::control(false, false, true, false, false),
            src_port: h.dst_port,
            dst_port: h.src_port,
            seq: h.ack,
            ack: 0,
            window_size: 0,
            selective_acks: None,
            window_scale: None,
            timestamp: None,
            timestamp_echo: None,
        },
        payload: Vec::new(),
    }
}

/// Executable form of [`can_be_accepted`].
fn acceptable(state: StateTag) -> (r: bool)
    ensures
        r == can_be_accepted(state),
{
    match state {
        StateTag::Established | StateTag::CloseWait => true,
        _ => false,
    }
}

/// The listening state.
pub struct ListenState<X: Dependencies> {
    deps: X,
    backlog: u32,
    pending: Vec<Child<X>>,
    queue: Vec<Child<X>>,
    egress: Vec<Segment>,
}

impl<X: Dependencies> View for ListenState<X> {
    type V = ListenView;

    closed spec fn view(&self) -> ListenView {
        ListenView {
            backlog: self.backlog,
            pending: child_views(self.pending@),
            queue: child_views(self.queue@),
            egress: segment_views(self.egress@),
        }
    }
}

impl<X: Dependencies> ListenState<X> {
    pub open spec fn wf(&self) -> bool {
        self@.wf()
    }

    /// A listener without connections that sets its timers through `deps`.
    pub fn new(deps: X, backlog: u32) -> (r: ListenState<X>)
        ensures
            r@ == ListenView::empty(backlog),
            r.objects() == only(deps),
            r.wf(),
    {
        let r = ListenState {
            deps,
            backlog,
            pending: Vec::new(),
            queue: Vec::new(),
            egress: Vec::new(),
        };
        assert(r@.pending =~= Seq::<ConnectionView>::empty());
        assert(r@.queue =~= Seq::<ConnectionView>::empty());
        assert(r@.egress =~= Seq::<SegmentView>::empty());
        assert(r.objects().pending =~= Seq::<X>::empty());
        assert(r.objects().queue =~= Seq::<X>::empty());
        r
    }

    /// The current time: what `current_time` of the listener's own object gives.
    pub fn current_time(&self) -> (now: u64)
        ensures
            call_ensures(X::current_time, (&self.deps(),), now),
    {
        self.deps.current_time()
    }

    /// The object through which the listener gets the time and sets its timers.
    pub closed spec fn deps(&self) -> X {
        self.deps
    }

    /// The listener's own timer object and those of the connections that wait at it.
    pub closed spec fn objects(&self) -> TimerObjects<X> {
        TimerObjects {
            own: self.deps,
            pending: child_deps(self.pending@),
            queue: child_deps(self.queue@),
        }
    }

    /// The listener's own object is the first of its timer objects, and every connection
    /// that waits has one.
    pub proof fn lemma_objects(&self)
        ensures
            self.objects().own == self.deps(),
            self.objects().pending.len() == self@.pending.len(),
            self.objects().queue.len() == self@.queue.len(),
    {
    }

    /// Gives up the listener and hands over the object through which it set its timers,
    /// and the segments that are left for the wire.
    pub fn into_residue(self) -> (r: (X, Vec<Segment>))
        ensures
            segment_views(r.1@) == self@.residue(),
            r.0 == self.deps(),
            r.0 == self.objects().own,
    {
        let mut out: Vec<Segment> = self.egress;
        push_aborts(&mut out, &self.pending);
        push_aborts(&mut out, &self.queue);
        (self.deps, out)
    }

    fn keep_queued(&mut self, i: usize, child: Child<X>)
        requires
            i <= old(self).queue@.len(),
        ensures
            final(self).queue@ == (if can_be_accepted(child@.tcb.state) {
                old(self).queue@.insert(i as int, child)
            } else {
                old(self).queue@
            }),
            final(self).pending == old(self).pending,
            final(self).egress == old(self).egress,
            final(self).backlog == old(self).backlog,
            final(self).deps == old(self).deps,
    {
        if acceptable(child.conn.state()) {
            self.queue.insert(i, child);
        }
    }

    fn keep_pending(&mut self, i: usize, child: Child<X>)
        requires
            i <= old(self).pending@.len(),
        ensures
            final(self).pending@ == (if child@.tcb.state == StateTag::SynReceived {
                old(self).pending@.insert(i as int, child)
            } else {
                old(self).pending@
            }),
            final(self).queue@ == (if child@.tcb.state != StateTag::SynReceived && can_be_accepted(
                child@.tcb.state,
            ) {
                old(self).queue@.push(child)
            } else {
                old(self).queue@
            }),
            final(self).egress == old(self).egress,
            final(self).backlog == old(self).backlog,
            final(self).deps == old(self).deps,
    {
        match child.conn.state() {
            StateTag::SynReceived => {
                self.pending.insert(i, child);
            },
            StateTag::Established | StateTag::CloseWait => {
                self.queue.push(child);
            },
            _ => {},
        }
    }

    /// Takes in a segment with the header `h` and the bytes `payload` that arrived at the
    /// time `now`.
    pub fn push_packet(&mut self, now: u64, h: &TcpHeader, payload: &[u8])
        requires
            old(self).wf(),
        ensures
            final(self)@ == old(self)@.pushed(now, *h, payload@),
            old(self)@.push_registers(old(self).objects(), final(self).objects(), now, *h, payload@),
            final(self).deps() == old(self).deps(),
            final(self).wf(),
    {
        let q: usize = find(&self.queue, h.dst(), h.src());
        if q < self.queue.len() {
            let ghost before = self.queue@;
            let mut child = self.queue.remove(q);
            assert(child@ == old(self)@.queue[q as int]);
            child.conn.push_packet(now, h, payload);
            let ghost c0 = child@;
            flush(&mut child.conn, &child.deps);
            self.keep_queued(q, child);
            proof {
                let c = child@;
                assert(self@.queue =~= old(self)@.with_queued(q as int, c).queue);
                assert(self@.pending =~= old(self)@.pending);
                lemma_with_queued_wf(old(self)@, q as int, c);
                let o = queued_objects(old(self).objects(), q as int, c0);
                assert(self.objects().queue =~= o.queue);
                assert(self.objects().pending =~= o.pending);
            }
            return ;
        }
        let p: usize = find(&self.pending, h.dst(), h.src());
        if p < self.pending.len() {
            let mut child = self.pending.remove(p);
            assert(child@ == old(self)@.pending[p as int]);
            child.conn.push_packet(now, h, payload);
            let ghost c0 = child@;
            flush(&mut child.conn, &child.deps);
            self.keep_pending(p, child);
            proof {
                let c = child@;
                assert(self@.pending =~= old(self)@.with_pending(p as int, c).pending);
                assert(self@.queue =~= old(self)@.with_pending(p as int, c).queue);
                lemma_with_pending_wf(old(self)@, p as int, c);
                let o = pending_objects(old(self).objects(), p as int, c0);
                assert(self.objects().queue =~= o.queue);
                assert(self.objects().pending =~= o.pending);
            }
            return ;
        }
        if h.flags.contains(TcpFlags::RST) {
        } else if h.flags.contains(TcpFlags::ACK) {
            let seg = reset_for(h);
            self.egress.push(seg);
            assert(segment_views(self.egress@) =~= segment_views(old(self).egress@).push(seg@));
        } else if h.flags.contains(TcpFlags::SYN) && self.pending.len() + self.queue.len() < (
        self.backlog as usize) {
            let mut conn = Connection::accept_syn(now, h);
            let deps = self.deps.fork();
            flush(&mut conn, &deps);
            let child = Child { conn, deps };
            self.pending.push(child);
            proof {
                assert(self@.pending =~= old(self)@.pending.push(child@));
                assert(self@.queue =~= old(self)@.queue);
                assert(self.objects().pending =~= old(self).objects().pending.push(child.deps));
                assert(self.objects().queue =~= old(self).objects().queue);
                assert(call_ensures(X::fork, (&old(self).objects().own,), child.deps));
                assert forall|i: int| 0 <= i < self@.pending.len() implies {
                    let c = #[trigger] self@.pending[i];
                    c.wf() && c.timers.len() == 0 && c.tcb.state == StateTag::SynReceived
                } by {
                    if i < old(self)@.pending.len() {
                        assert(self@.pending[i] == old(self)@.pending[i]);
                    }
                }
            }
        }
    }

    /// Executable form of [`ListenView::wants_to_send`].
    pub fn wants_to_send(&self) -> (r: bool)
        requires
            self.wf(),
        ensures
            r == self@.wants_to_send(),
    {
        proof {
            self.lemma_children_wf();
        }
        self.egress.len() > 0 || find_sender(&self.pending) < self.pending.len() || find_sender(
            &self.queue,
        ) < self.queue.len()
    }

    proof fn lemma_children_wf(&self)
        requires
            self.wf(),
        ensures
            forall|i: int| 0 <= i < self.pending@.len() ==> (#[trigger] self.pending@[i]).conn.wf(),
            forall|i: int| 0 <= i < self.queue@.len() ==> (#[trigger] self.queue@[i]).conn.wf(),
    {
        assert forall|i: int| 0 <= i < self.pending@.len() implies (
        #[trigger] self.pending@[i]).conn.wf() by {
            assert(self@.pending[i] == self.pending@[i]@);
        }
        assert forall|i: int| 0 <= i < self.queue@.len() implies (
        #[trigger] self.queue@[i]).conn.wf() by {
            assert(self@.queue[i] == self.queue@[i]@);
        }
    }

    /// Gives the next segment for the wire at the time `now`.
    pub fn pop_packet(&mut self, now: u64) -> (r: Result<Segment, PopPacketError>)
        requires
            old(self).wf(),
        ensures
            final(self)@ == old(self)@.popped(now).0,
            match r {
                Ok(seg) => old(self)@.popped(now).1 == Ok::<SegmentView, PopPacketError>(seg@),
                Err(e) => old(self)@.popped(now).1 == Err::<SegmentView, PopPacketError>(e),
            },
            old(self)@.wants_to_send() ==> r is Ok,
            old(self)@.pop_registers(old(self).objects(), final(self).objects(), now),
            final(self).deps() == old(self).deps(),
            final(self).wf(),
    {
        proof {
            self.lemma_children_wf();
        }
        if self.egress.len() > 0 {
            let seg = self.egress.remove(0);
            assert(segment_views(self.egress@) =~= old(self)@.egress.drop_first());
            return Ok(seg);
        }
        let p: usize = find_sender(&self.pending);
        if p < self.pending.len() {
            let mut child = self.pending.remove(p);
            assert(child@ == old(self)@.pending[p as int]);
            let r = child.conn.pop_packet(now);
            flush(&mut child.conn, &child.deps);
            self.pending.insert(p, child);
            proof {
                assert(self@.pending =~= old(self)@.pending.update(p as int, child@));
                assert(self@.queue =~= old(self)@.queue);
                assert(self.objects().pending =~= old(self).objects().pending);
                assert(self.objects().queue =~= old(self).objects().queue);
                assert forall|i: int| 0 <= i < self@.pending.len() implies {
                    let c = #[trigger] self@.pending[i];
                    c.wf() && c.timers.len() == 0 && c.tcb.state == StateTag::SynReceived
                } by {
                    if i != p {
                        assert(self@.pending[i] == old(self)@.pending[i]);
                    }
                }
            }
            return r;
        }
        let q: usize = find_sender(&self.queue);
        if q < self.queue.len() {
            let mut child = self.queue.remove(q);
            assert(child@ == old(self)@.queue[q as int]);
            let r = child.conn.pop_packet(now);
            flush(&mut child.conn, &child.deps);
            self.queue.insert(q, child);
            proof {
                assert(self@.queue =~= old(self)@.queue.update(q as int, child@));
                assert(self@.pending =~= old(self)@.pending);
                assert(self.objects().pending =~= old(self).objects().pending);
                assert(self.objects().queue =~= old(self).objects().queue);
                assert forall|i: int| 0 <= i < self@.queue.len() implies {
                    let c = #[trigger] self@.queue[i];
                    c.wf() && c.timers.len() == 0 && can_be_accepted(c.tcb.state)
                } by {
                    if i != q {
                        assert(self@.queue[i] == old(self)@.queue[i]);
                    }
                }
            }
            return r;
        }
        Err(PopPacketError::NoPacket)
    }

    /// Takes in that the timer `t`, which a connection that waits here had set, fired at
    /// the time `now`.
    pub fn on_timer(&mut self, now: u64, t: &Timer)
        requires
            old(self).wf(),
        ensures
            final(self)@ == old(self)@.timer_fired(now, *t),
            old(self)@.timer_registers(old(self).objects(), final(self).objects(), now, *t),
            final(self).deps() == old(self).deps(),
            final(self).wf(),
    {
        let q: usize = find(&self.queue, t.local, t.remote);
        if q < self.queue.len() {
            let mut child = self.queue.remove(q);
            assert(child@ == old(self)@.queue[q as int]);
            child.conn.on_timer(now, t);
            let ghost c0 = child@;
            flush(&mut child.conn, &child.deps);
            self.keep_queued(q, child);
            proof {
                let c = child@;
                assert(self@.queue =~= old(self)@.with_queued(q as int, c).queue);
                assert(self@.pending =~= old(self)@.pending);
                lemma_with_queued_wf(old(self)@, q as int, c);
                let o = queued_objects(old(self).objects(), q as int, c0);
                assert(self.objects().queue =~= o.queue);
                assert(self.objects().pending =~= o.pending);
            }
            return ;
        }
        let p: usize = find(&self.pending, t.local, t.remote);
        if p < self.pending.len() {
            let mut child = self.pending.remove(p);
            assert(child@ == old(self)@.pending[p as int]);
            child.conn.on_timer(now, t);
            let ghost c0 = child@;
            flush(&mut child.conn, &child.deps);
            self.keep_pending(p, child);
            proof {
                let c = child@;
                assert(self@.pending =~= old(self)@.with_pending(p as int, c).pending);
                assert(self@.queue =~= old(self)@.with_pending(p as int, c).queue);
                lemma_with_pending_wf(old(self)@, p as int, c);
                let o = pending_objects(old(self).objects(), p as int, c0);
                assert(self.objects().queue =~= o.queue);
                assert(self.objects().pending =~= o.pending);
            }
        }
    }

    /// Takes the connection at the front of the accept queue.
    pub fn accept(&mut self) -> (r: Result<Child<X>, AcceptError>)
        requires
            old(self).wf(),
        ensures
            final(self)@ == old(self)@.accepted().0,
            match r {
                Ok(child) => old(self)@.accepted().1 == Ok::<ConnectionView, AcceptError>(child@)
                    && child.conn.wf() && can_be_accepted(child@.tcb.state) && child.deps == old(
                    self,
                ).objects().queue[0],
                Err(e) => old(self)@.accepted().1 == Err::<ConnectionView, AcceptError>(e),
            },
            final(self).objects() == old(self)@.accept_objects(old(self).objects()),
            final(self).deps() == old(self).deps(),
            final(self).wf(),
    {
        if self.queue.len() == 0 {
            return Err(AcceptError::NothingToAccept);
        }
        let child = self.queue.remove(0);
        proof {
            assert(child@ == old(self)@.queue[0]);
            assert(self@.queue =~= old(self)@.queue.drop_first());
            assert(self@.pending =~= old(self)@.pending);
            assert(self.objects().queue =~= old(self).objects().queue.drop_first());
            assert(self.objects().pending =~= old(self).objects().pending);
            assert forall|i: int| 0 <= i < self@.queue.len() implies {
                let c = #[trigger] self@.queue[i];
                c.wf() && c.timers.len() == 0 && can_be_accepted(c.tcb.state)
            } by {
                assert(self@.queue[i] == old(self)@.queue[i + 1]);
            }
        }
        Ok(child)
    }

    /// Executable form of [`ListenView::readiness`].
    pub fn readiness(&self) -> (r: Readiness)
        ensures
            r == self@.readiness(),
    {
        Readiness {
            readable: false,
            writable: false,
            error: false,
            recv_closed: false,
            send_closed: false,
            ready_to_accept: self.queue.len() > 0,
            established: false,
            closed: false,
        }
    }

    /// The number of connections in the accept queue.
    pub fn queue_len(&self) -> (r: usize)
        ensures
            r == self@.queue.len(),
    {
        self.queue.len()
    }

    /// The number of connections whose handshake is not complete.
    pub fn pending_len(&self) -> (r: usize)
        ensures
            r == self@.pending.len(),
    {
        self.pending.len()
    }
}

/// A listener stays well-formed when a queued connection is replaced by a well-formed one
/// without timers to set.
pub proof fn lemma_with_queued_wf(l: ListenView, i: int, c: ConnectionView)
    requires
        l.wf(),
        0 <= i < l.queue.len(),
        c.wf(),
        c.timers.len() == 0,
    ensures
        l.with_queued(i, c).wf(),
{
    let after = l.with_queued(i, c);
    assert forall|k: int| 0 <= k < after.queue.len() implies {
        let x = #[trigger] after.queue[k];
        x.wf() && x.timers.len() == 0 && can_be_accepted(x.tcb.state)
    } by {
        if can_be_accepted(c.tcb.state) {
            if k != i {
                assert(after.queue[k] == l.queue[k]);
            }
        } else {
            if k < i {
                assert(after.queue[k] == l.queue[k]);
            } else {
                assert(after.queue[k] == l.queue[k + 1]);
            }
        }
    }
}

/// A listener stays well-formed when a pending connection is replaced by a well-formed one
/// without timers to set.
pub proof fn lemma_with_pending_wf(l: ListenView, i: int, c: ConnectionView)
    requires
        l.wf(),
        0 <= i < l.pending.len(),
        c.wf(),
        c.timers.len() == 0,
    ensures
        l.with_pending(i, c).wf(),
{
    let after = l.with_pending(i, c);
    assert forall|k: int| 0 <= k < after.pending.len() implies {
        let x = #[trigger] after.pending[k];
        x.wf() && x.timers.len() == 0 && x.tcb.state == StateTag::SynReceived
    } by {
        if c.tcb.state == StateTag::SynReceived {
            if k != i {
                assert(after.pending[k] == l.pending[k]);
            }
        } else {
            if k < i {
                assert(after.pending[k] == l.pending[k]);
            } else {
                assert(after.pending[k] == l.pending[k + 1]);
            }
        }
    }
    assert forall|k: int| 0 <= k < after.queue.len() implies {
        let x = #[trigger] after.queue[k];
        x.wf() && x.timers.len() == 0 && can_be_accepted(x.tcb.state)
    } by {
        if k < l.queue.len() {
            assert(after.queue[k] == l.queue[k]);
        }
    }
}

} // verus!
