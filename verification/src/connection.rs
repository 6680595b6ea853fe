//! One TCP connection: its control block, its two buffers, the segments it has ready for the
//! wire and the timers it wants set.
//!
//! Every operation takes the current time as an argument and is a function of the
//! connection's content and its arguments alone. Positions in either stream are 64-bit
//! offsets; the SYN of a stream has the offset 0 and its first byte the offset 1.

use vstd::prelude::*;
use crate::error::{CloseError, PopPacketError, RecvError, RstCloseError, SendError, TcpError};
use crate::flags::{Readiness, TcpFlags};
use crate::header::{Endpoint, Ipv4Header, SackBlocks, TcpHeader};
use crate::recv_buffer::{RecvBuffer, RecvBufferView};
use crate::rtt::RttEstimator;
use crate::send_buffer::{OutgoingView, SendBuffer, SendBufferView};
use crate::seq::{
    at_or_before,
    before,
    distance,
    in_window,
    seq_add,
    seq_diff,
    seq_in_window,
    seq_le,
    seq_lt,
    wire,
};
use crate::timer::{Timer, TimerKind};

verus! {

/// The largest payload of a segment.
pub const MSS: usize = 536;

/// The size of the send buffer.
pub const SEND_CAPACITY: usize = 262_144;

/// The size of the receive buffer.
pub const RECV_CAPACITY: usize = 262_144;

/// The window shift that the engine asks for.
pub const WINDOW_SHIFT: u8 = 3;

/// The largest window shift.
pub const MAX_WINDOW_SHIFT: u8 = 14;

/// The largest send window: the largest 16-bit window under the largest shift.
pub const MAX_SEND_WINDOW: u32 = 0x3FFF_C000;

/// How long an acknowledgment may wait for data to ride on.
pub const DELAYED_ACK: u64 = 200;

/// The maximum segment lifetime. A closing connection stays in TIME-WAIT for twice as long.
pub const MSL: u64 = 60_000;

/// How many times a SYN is sent before the attempt is given up.
pub const MAX_SYN_ATTEMPTS: u32 = 5;

/// How long a connection attempt may take in all.
pub const CONNECT_TIMEOUT: u64 = 120_000;

/// The thirteen states of the engine.
#[derive(Clone, Copy, Debug, PartialEq, Eq, Hash, Structural)]
pub enum StateTag {
    Init,
    Listen,
    SynSent,
    SynReceived,
    Established,
    FinWaitOne,
    FinWaitTwo,
    Closing,
    TimeWait,
    CloseWait,
    LastAck,
    Rst,
    Closed,
}

impl StateTag {
    /// The handshake has not been completed.
    pub open spec fn is_handshake(self) -> bool {
        self == StateTag::SynSent || self == StateTag::SynReceived
    }

    /// Both sides have the other's initial sequence number: the seven states from
    /// ESTABLISHED to LAST-ACK.
    pub open spec fn is_synchronized(self) -> bool {
        self == StateTag::Established || self == StateTag::FinWaitOne || self
            == StateTag::FinWaitTwo || self == StateTag::Closing || self == StateTag::TimeWait
            || self == StateTag::CloseWait || self == StateTag::LastAck
    }

    /// Data from the peer is still taken in.
    pub open spec fn takes_data(self) -> bool {
        self == StateTag::Established || self == StateTag::FinWaitOne || self
            == StateTag::FinWaitTwo
    }

    /// The application can still hand over data.
    pub open spec fn can_write(self) -> bool {
        self == StateTag::Established || self == StateTag::CloseWait
    }

    /// Data or a FIN may still have to be sent.
    pub open spec fn can_transmit(self) -> bool {
        self == StateTag::Established || self == StateTag::CloseWait || self
            == StateTag::FinWaitOne || self == StateTag::Closing || self == StateTag::LastAck
    }

    /// The state is FIN-WAIT-1 or a state that a connection reaches only after it: the
    /// local side has closed, or the connection is gone.
    pub open spec fn at_or_beyond_fin_wait_one(self) -> bool {
        self == StateTag::FinWaitOne || self == StateTag::FinWaitTwo || self == StateTag::Closing
            || self == StateTag::TimeWait || self == StateTag::LastAck || self == StateTag::Rst
            || self == StateTag::Closed
    }

    #[verifier::when_used_as_spec(is_handshake)]
    pub fn handshake(self) -> (r: bool)
        ensures
            r == self.is_handshake(),
    {
        match self {
            StateTag::SynSent | StateTag::SynReceived => true,
            _ => false,
        }
    }

    #[verifier::when_used_as_spec(is_synchronized)]
    pub fn synchronized(self) -> (r: bool)
        ensures
            r == self.is_synchronized(),
    {
        match self {
            StateTag::Established
            | StateTag::FinWaitOne
            | StateTag::FinWaitTwo
            | StateTag::Closing
            | StateTag::TimeWait
            | StateTag::CloseWait
            | StateTag::LastAck => true,
            _ => false,
        }
    }

    #[verifier::when_used_as_spec(takes_data)]
    pub fn receiving(self) -> (r: bool)
        ensures
            r == self.takes_data(),
    {
        match self {
            StateTag::Established | StateTag::FinWaitOne | StateTag::FinWaitTwo => true,
            _ => false,
        }
    }

    #[verifier::when_used_as_spec(can_write)]
    pub fn writable(self) -> (r: bool)
        ensures
            r == self.can_write(),
    {
        match self {
            StateTag::Established | StateTag::CloseWait => true,
            _ => false,
        }
    }

    #[verifier::when_used_as_spec(can_transmit)]
    pub fn transmitting(self) -> (r: bool)
        ensures
            r == self.can_transmit(),
    {
        match self {
            StateTag::Established
            | StateTag::CloseWait
            | StateTag::FinWaitOne
            | StateTag::Closing
            | StateTag::LastAck => true,
            _ => false,
        }
    }
}

/// The control block of a connection: everything it keeps besides its buffers.
#[derive(Clone, Copy, Debug, PartialEq, Eq, Structural)]
pub struct Tcb {
    pub state: StateTag,
    pub local: Endpoint,
    pub remote: Endpoint,
    /// The initial send sequence number: the number of the local SYN.
    pub iss: u32,
    /// The initial receive sequence number: the number of the peer's SYN.
    pub irs: u32,
    /// The send window: how many offsets from the oldest unacknowledged one the peer takes.
    pub snd_wnd: u32,
    /// The sequence number of the segment that last updated the send window.
    pub snd_wl1: u32,
    /// The acknowledgment number of the segment that last updated the send window.
    pub snd_wl2: u32,
    /// The shift to apply to the windows that the peer announces.
    pub snd_wscale: u8,
    /// The shift that the peer applies to the windows announced to it.
    pub rcv_wscale: u8,
    /// The peer takes part in window scaling.
    pub wscale_permitted: bool,
    /// The peer takes part in selective acknowledgment.
    pub sack_permitted: bool,
    /// The peer takes part in timestamps.
    pub ts_permitted: bool,
    /// The peer's latest timestamp, to be echoed.
    pub ts_recent: u32,
    pub rtt: RttEstimator,
    /// How many acknowledgments in a row have acknowledged nothing new.
    pub dup_acks: u32,
    /// The latched error.
    pub error: Option<TcpError>,
    /// How many times the SYN has been sent.
    pub syn_attempts: u32,
    /// When the connection attempt began.
    pub opened_at: u64,
    /// The instant for which the retransmission timer now counts.
    pub rto_deadline: Option<u64>,
    /// The instant for which the delayed-acknowledgment timer now counts.
    pub ack_deadline: Option<u64>,
    /// The instant for which the TIME-WAIT timer now counts.
    pub time_wait_deadline: Option<u64>,
    /// How many bytes have arrived since the last acknowledgment was sent.
    pub ack_owed: u64,
    /// The connection is or has been established.
    pub was_established: bool,
}

/// A segment that is ready for the wire.
#[derive(Debug)]
pub struct Segment {
    pub header: TcpHeader,
    pub payload: Vec<u8>,
}

/// The mathematical content of a [`Segment`].
pub struct SegmentView {
    pub header: TcpHeader,
    pub payload: Seq<u8>,
}

impl View for Segment {
    type V = SegmentView;

    open spec fn view(&self) -> SegmentView {
        SegmentView { header: self.header, payload: self.payload@ }
    }
}

/// The views of a sequence of segments.
pub open spec fn segment_views(s: Seq<Segment>) -> Seq<SegmentView> {
    Seq::new(s.len(), |i: int| s[i]@)
}

/// The initial sequence number for a connection that begins at the time `now`: the low 32
/// bits of a clock that ticks every four microseconds.
pub open spec fn initial_sequence(now: u64) -> u32 {
    (((now % 0x1_0000_0000) * 250) % 0x1_0000_0000) as u32
}

/// The timestamp for a segment sent at the time `now`: the low 32 bits of the clock.
pub open spec fn timestamp_of(now: u64) -> u32 {
    (now % 0x1_0000_0000) as u32
}

/// The instant `delay` milliseconds after `now`, or the last instant if the clock does not
/// reach that far.
pub open spec fn instant_after(now: u64, delay: u64) -> u64 {
    if now + delay > u64::MAX {
        u64::MAX
    } else {
        (now + delay) as u64
    }
}

/// The factor that a window shift stands for: 2 to the power of the shift, for shifts up to
/// 14. A larger shift counts as 14.
pub open spec fn scale_factor(shift: u8) -> u32 {
    if shift == 0 {
        1
    } else if shift == 1 {
        2
    } else if shift == 2 {
        4
    } else if shift == 3 {
        8
    } else if shift == 4 {
        16
    } else if shift == 5 {
        32
    } else if shift == 6 {
        64
    } else if shift == 7 {
        128
    } else if shift == 8 {
        256
    } else if shift == 9 {
        512
    } else if shift == 10 {
        1024
    } else if shift == 11 {
        2048
    } else if shift == 12 {
        4096
    } else if shift == 13 {
        8192
    } else {
        16384
    }
}

/// The window that a 16-bit window field stands for under a shift.
pub open spec fn scaled_window(field: u16, shift: u8) -> u32 {
    (field * scale_factor(shift)) as u32
}

/// The ranges of `r` as wire sequence numbers, for a stream whose SYN has the number `base`.
pub open spec fn wire_ranges(base: u32, r: Seq<(u64, u64)>) -> Seq<(u32, u32)> {
    Seq::new(r.len(), |i: int| (seq_add(base, r[i].0 as int), seq_add(base, r[i].1 as int)))
}

/// Executable form of [`initial_sequence`].
pub fn initial_sequence_at(now: u64) -> (r: u32)
    ensures
        r == initial_sequence(now),
{
    (((now % 0x1_0000_0000) * 250) % 0x1_0000_0000) as u32
}

/// Executable form of [`timestamp_of`].
pub fn timestamp_at(now: u64) -> (r: u32)
    ensures
        r == timestamp_of(now),
{
    (now % 0x1_0000_0000) as u32
}

/// Executable form of [`instant_after`].
pub fn after(now: u64, delay: u64) -> (r: u64)
    ensures
        r == instant_after(now, delay),
{
    if delay > u64::MAX - now {
        u64::MAX
    } else {
        now + delay
    }
}

/// Executable form of [`scale_factor`].
pub fn factor(shift: u8) -> (r: u32)
    ensures
        r == scale_factor(shift),
        1 <= r <= 16384,
{
    if shift == 0 {
        1
    } else if shift == 1 {
        2
    } else if shift == 2 {
        4
    } else if shift == 3 {
        8
    } else if shift == 4 {
        16
    } else if shift == 5 {
        32
    } else if shift == 6 {
        64
    } else if shift == 7 {
        128
    } else if shift == 8 {
        256
    } else if shift == 9 {
        512
    } else if shift == 10 {
        1024
    } else if shift == 11 {
        2048
    } else if shift == 12 {
        4096
    } else if shift == 13 {
        8192
    } else {
        16384
    }
}

/// Executable form of [`scaled_window`].
pub fn scale(field: u16, shift: u8) -> (r: u32)
    ensures
        r == scaled_window(field, shift),
        r <= MAX_SEND_WINDOW,
{
    let f: u32 = factor(shift);
    assert(field * f <= 65535 * 16384) by (nonlinear_arith)
        requires
            field <= 65535,
            1 <= f <= 16384,
    ;
    field as u32 * f
}

/// A scaled window is never larger than the largest send window.
pub proof fn lemma_scaled_window_bound(field: u16, shift: u8)
    ensures
        scaled_window(field, shift) <= MAX_SEND_WINDOW,
        scaled_window(field, shift) == field * scale_factor(shift),
{
    let f = scale_factor(shift);
    assert(field * f <= 65535 * 16384) by (nonlinear_arith)
        requires
            field <= 65535,
            1 <= f <= 16384,
    ;
}

/// The mathematical content of a [`Connection`].
pub struct ConnectionView {
    pub tcb: Tcb,
    pub snd: SendBufferView,
    pub rcv: RecvBufferView,
    /// The segments that are ready for the wire, the oldest first.
    pub egress: Seq<SegmentView>,
    /// The timers that the connection wants set, in the order in which it asked.
    pub timers: Seq<Timer>,
}

impl ConnectionView {
    pub open spec fn wf(self) -> bool {
        &&& self.tcb.state != StateTag::Init
        &&& self.tcb.state != StateTag::Listen
        &&& self.snd.wf()
        &&& self.rcv.wf()
        &&& self.tcb.rtt.wf()
        &&& self.snd.origin == 1
        &&& self.rcv.origin == 1
        &&& self.tcb.snd_wscale <= MAX_WINDOW_SHIFT
        &&& self.tcb.rcv_wscale <= MAX_WINDOW_SHIFT
        &&& self.tcb.snd_wnd <= MAX_SEND_WINDOW
        &&& self.snd.nxt <= self.snd.una + self.tcb.snd_wnd
        &&& self.tcb.ack_owed < 2 * MSS
        &&& self.tcb.state.is_handshake() ==> self.snd.nxt == 1 && self.snd.una == 1
        &&& self.snd.fin_queued ==> !self.tcb.state.can_write()
            && !self.tcb.state.is_handshake()
    }

    /// SND.UNA: the oldest sequence number that the peer has not acknowledged.
    pub open spec fn snd_una(self) -> u32 {
        if self.tcb.state.is_handshake() {
            self.tcb.iss
        } else {
            seq_add(self.tcb.iss, self.snd.una as int)
        }
    }

    /// SND.NXT: the next sequence number to send.
    pub open spec fn snd_nxt(self) -> u32 {
        seq_add(self.tcb.iss, self.snd.nxt as int)
    }

    /// RCV.NXT: the next sequence number that is expected.
    pub open spec fn rcv_nxt(self) -> u32 {
        seq_add(self.tcb.irs, self.rcv.nxt as int)
    }

    /// The window field of the segments that the connection sends.
    pub open spec fn advertised(self) -> u16 {
        let w = self.rcv.window() / (scale_factor(self.tcb.rcv_wscale) as int);
        if w > 65535 {
            65535
        } else {
            w as u16
        }
    }

    /// The selective acknowledgments of the segments that the connection sends.
    pub open spec fn sack_option(self) -> Option<SackBlocks> {
        if self.tcb.sack_permitted && self.rcv.blocks.len() > 0 {
            Some(SackBlocks::of(wire_ranges(self.tcb.irs, self.rcv.sack_ranges())))
        } else {
            None
        }
    }

    /// The header of a segment without SYN that is made at the time `now`, with the flags
    /// `flags` and the sequence number `seq`.
    pub open spec fn header(self, now: u64, flags: TcpFlags, seq: u32) -> TcpHeader {
        TcpHeader {
            ip: Ipv4Header { src: self.tcb.local.ip, dst: self.tcb.remote.ip },
            flags,
            src_port: self.tcb.local.port,
            dst_port: self.tcb.remote.port,
            seq,
            ack: if flags.has(TcpFlags::ACK) {
                self.rcv_nxt()
            } else {
                0
            },
            window_size: self.advertised(),
            selective_acks: self.sack_option(),
            window_scale: None,
            timestamp: if self.tcb.ts_permitted {
                Some(timestamp_of(now))
            } else {
                None
            },
            timestamp_echo: if self.tcb.ts_permitted && flags.has(TcpFlags::ACK) {
                Some(self.tcb.ts_recent)
            } else {
                None
            },
        }
    }

    /// The header of the connection's SYN, made at the time `now`. A first SYN offers
    /// every option; one that answers a SYN offers what that SYN offered.
    pub open spec fn syn_header(self, now: u64, answer: bool) -> TcpHeader {
        let w = self.rcv.window();
        TcpHeader {
            ip: Ipv4Header { src: self.tcb.local.ip, dst: self.tcb.remote.ip },
            flags: TcpFlags::of_control(false, true, false, false, answer),
            src_port: self.tcb.local.port,
            dst_port: self.tcb.remote.port,
            seq: self.tcb.iss,
            ack: if answer {
                self.rcv_nxt()
            } else {
                0
            },
            window_size: if w > 65535 {
                65535
            } else {
                w as u16
            },
            selective_acks: if !answer || self.tcb.sack_permitted {
                Some(SackBlocks::of(Seq::empty()))
            } else {
                None
            },
            window_scale: if !answer || self.tcb.wscale_permitted {
                Some(WINDOW_SHIFT)
            } else {
                None
            },
            timestamp: if !answer || self.tcb.ts_permitted {
                Some(timestamp_of(now))
            } else {
                None
            },
            timestamp_echo: if answer && self.tcb.ts_permitted {
                Some(self.tcb.ts_recent)
            } else {
                None
            },
        }
    }

    /// The connection with `seg` added to the segments that are ready for the wire.
    pub open spec fn emitting(self, seg: SegmentView) -> ConnectionView {
        ConnectionView { egress: self.egress.push(seg), ..self }
    }

    /// The connection with a timer of the kind `kind` asked for, to fire at `at`.
    pub open spec fn asking(self, kind: TimerKind, at: u64) -> ConnectionView {
        ConnectionView {
            timers: self.timers.push(
                Timer { kind, at, local: self.tcb.local, remote: self.tcb.remote },
            ),
            ..self
        }
    }

    /// A segment that only acknowledges, made at the time `now`.
    pub open spec fn ack_segment(self, now: u64) -> SegmentView {
        SegmentView {
            header: self.header(
                now,
                TcpFlags::of_control(false, false, false, false, true),
                self.snd_nxt(),
            ),
            payload: Seq::empty(),
        }
    }

    /// The connection after it has made a segment that only acknowledges: nothing is owed
    /// any more, and no delayed acknowledgment is waited for.
    pub open spec fn acking(self, now: u64) -> ConnectionView {
        ConnectionView {
            tcb: Tcb { ack_owed: 0, ack_deadline: None, ..self.tcb },
            egress: self.egress.push(self.ack_segment(now)),
            ..self
        }
    }

    /// The reset that answers the segment with the header `h`, which does not belong to
    /// the connection: it takes its sequence number from the acknowledgment of `h`.
    pub open spec fn reset_reply(self, h: TcpHeader) -> SegmentView {
        SegmentView {
            header: TcpHeader {
                ip: Ipv4Header { src: self.tcb.local.ip, dst: self.tcb.remote.ip },
                flags: TcpFlags::of_control(false, false, true, false, false),
                src_port: self.tcb.local.port,
                dst_port: self.tcb.remote.port,
                seq: h.ack,
                ack: 0,
                window_size: 0,
                selective_acks: None,
                window_scale: None,
                timestamp: None,
                timestamp_echo: None,
            },
            payload: Seq::empty(),
        }
    }

    /// The connection after the timers that it wanted set were handed over.
    pub open spec fn flushed(self) -> ConnectionView {
        ConnectionView { timers: Seq::empty(), ..self }
    }

    /// The reset that is sent for a connection that is given up without having been
    /// accepted.
    pub open spec fn abort_segment(self) -> SegmentView {
        SegmentView {
            header: TcpHeader {
                ip: Ipv4Header { src: self.tcb.local.ip, dst: self.tcb.remote.ip },
                flags: TcpFlags::of_control(false, false, true, false, true),
                src_port: self.tcb.local.port,
                dst_port: self.tcb.remote.port,
                seq: self.snd_nxt(),
                ack: self.rcv_nxt(),
                window_size: 0,
                selective_acks: None,
                window_scale: None,
                timestamp: None,
                timestamp_echo: None,
            },
            payload: Seq::empty(),
        }
    }

    /// The connection with `e` latched, unless an error is latched already.
    pub open spec fn latching(self, e: TcpError) -> ConnectionView {
        ConnectionView {
            tcb: Tcb {
                error: if self.tcb.error is Some {
                    self.tcb.error
                } else {
                    Some(e)
                },
                ..self.tcb
            },
            ..self
        }
    }

    /// The connection in the terminal state: no timer counts any more.
    pub open spec fn shut(self) -> ConnectionView {
        ConnectionView {
            tcb: Tcb {
                state: StateTag::Closed,
                rto_deadline: None,
                ack_deadline: None,
                time_wait_deadline: None,
                ..self.tcb
            },
            ..self
        }
    }

    /// The connection with the retransmission timer set anew at the time `now`.
    pub open spec fn rearmed(self, now: u64) -> ConnectionView {
        let at = instant_after(now, self.tcb.rtt.rto);
        ConnectionView { tcb: Tcb { rto_deadline: Some(at), ..self.tcb }, ..self }.asking(
            TimerKind::Retransmit,
            at,
        )
    }

    /// The connection as it enters TIME-WAIT at the time `now`, or stays there with the
    /// timer set anew: the timer is set for twice the maximum segment lifetime, and nothing
    /// is retransmitted any more.
    pub open spec fn waiting(self, now: u64) -> ConnectionView {
        let at = instant_after(now, (2 * MSL) as u64);
        ConnectionView {
            tcb: Tcb {
                state: StateTag::TimeWait,
                time_wait_deadline: Some(at),
                rto_deadline: None,
                ..self.tcb
            },
            ..self
        }.asking(TimerKind::TimeWait, at)
    }
}

/// The control block of a connection that begins at the time `now`, in the state `state`.
pub open spec fn fresh_tcb(state: StateTag, now: u64, local: Endpoint, remote: Endpoint) -> Tcb {
    Tcb {
        state,
        local,
        remote,
        iss: initial_sequence(now),
        irs: 0,
        snd_wnd: 0,
        snd_wl1: 0,
        snd_wl2: 0,
        snd_wscale: 0,
        rcv_wscale: 0,
        wscale_permitted: false,
        sack_permitted: false,
        ts_permitted: false,
        ts_recent: 0,
        rtt: RttEstimator::initial(),
        dup_acks: 0,
        error: None,
        syn_attempts: 1,
        opened_at: now,
        rto_deadline: None,
        ack_deadline: None,
        time_wait_deadline: None,
        ack_owed: 0,
        was_established: false,
    }
}

/// The control block after the options of the peer's SYN, whose header is `h`, were taken
/// in. An option is in use if the peer offers it. The peer's window shift counts up to 14.
pub open spec fn negotiated(tcb: Tcb, h: TcpHeader) -> Tcb {
    Tcb {
        irs: h.seq,
        wscale_permitted: h.window_scale is Some,
        snd_wscale: match h.window_scale {
            Some(s) => if s > MAX_WINDOW_SHIFT {
                MAX_WINDOW_SHIFT
            } else {
                s
            },
            None => 0,
        },
        rcv_wscale: if h.window_scale is Some {
            WINDOW_SHIFT
        } else {
            0
        },
        sack_permitted: h.selective_acks is Some,
        ts_permitted: h.timestamp is Some,
        ts_recent: match h.timestamp {
            Some(t) => t,
            None => 0,
        },
        snd_wnd: h.window_size as u32,
        snd_wl1: h.seq,
        snd_wl2: h.ack,
        ..tcb
    }
}

impl ConnectionView {
    /// A connection that is opened actively at the time `now`: it is in SYN-SENT, its SYN
    /// is ready for the wire and the retransmission timer is set.
    pub open spec fn active(now: u64, local: Endpoint, remote: Endpoint) -> ConnectionView {
        let c = ConnectionView {
            tcb: fresh_tcb(StateTag::SynSent, now, local, remote),
            snd: SendBufferView::empty(1, SEND_CAPACITY),
            rcv: RecvBufferView::empty(1, RECV_CAPACITY),
            egress: Seq::empty(),
            timers: Seq::empty(),
        };
        c.emitting(SegmentView { header: c.syn_header(now, false), payload: Seq::empty() }).rearmed(
            now,
        )
    }

    /// A connection that is opened at the time `now` by the SYN with the header `h`: it is
    /// in SYN-RECEIVED, its own SYN, which acknowledges the peer's, is ready for the wire
    /// and the retransmission timer is set.
    pub open spec fn passive(now: u64, h: TcpHeader) -> ConnectionView {
        let c = ConnectionView {
            tcb: negotiated(
                fresh_tcb(StateTag::SynReceived, now, h.destination(), h.source()),
                h,
            ),
            snd: SendBufferView::empty(1, SEND_CAPACITY),
            rcv: RecvBufferView::empty(1, RECV_CAPACITY),
            egress: Seq::empty(),
            timers: Seq::empty(),
        };
        c.emitting(SegmentView { header: c.syn_header(now, true), payload: Seq::empty() }).rearmed(
            now,
        )
    }
}

/// The time from `then` to `now`, or nothing if the clock has gone back.
pub open spec fn elapsed(now: u64, then: u64) -> u64 {
    if now >= then {
        (now - then) as u64
    } else {
        0
    }
}

/// The number of sequence numbers that a segment takes: one for each byte, one for a SYN
/// and one for a FIN.
pub open spec fn segment_space(h: TcpHeader, len: int) -> int {
    len + (if h.flags.has(TcpFlags::SYN) {
        1int
    } else {
        0int
    }) + (if h.flags.has(TcpFlags::FIN) {
        1int
    } else {
        0int
    })
}

/// The send buffer after the peer has reported the block `b`. The block counts if it lies
/// within what is in flight.
pub open spec fn sack_one(snd: SendBufferView, iss: u32, b: (u32, u32)) -> SendBufferView {
    let una = seq_add(iss, snd.una as int);
    let lo = seq_diff(b.0, una);
    let hi = seq_diff(b.1, una);
    if 0 <= lo < hi <= snd.in_flight() {
        snd.sacked((snd.una + lo) as u64, (snd.una + hi) as u64)
    } else {
        snd
    }
}

/// The send buffer after the peer has reported the blocks `blocks`, one after the other.
pub open spec fn sack_all(snd: SendBufferView, iss: u32, blocks: Seq<(u32, u32)>) -> SendBufferView
    decreases blocks.len(),
{
    if blocks.len() == 0 {
        snd
    } else {
        sack_all(sack_one(snd, iss, blocks[0]), iss, blocks.drop_first())
    }
}

impl ConnectionView {
    /// How far the sequence number of `h` lies behind RCV.NXT.
    pub open spec fn seq_delta(self, h: TcpHeader) -> int {
        seq_diff(h.seq, self.rcv_nxt())
    }

    /// How far the acknowledgment number of `h` lies behind the oldest unacknowledged
    /// offset.
    pub open spec fn ack_delta(self, h: TcpHeader) -> int {
        seq_diff(h.ack, seq_add(self.tcb.iss, self.snd.una as int))
    }

    /// The sequence number of `h` lies in the receive window.
    pub open spec fn in_window(self, h: TcpHeader) -> bool {
        seq_in_window(h.seq, self.rcv_nxt(), self.rcv.window())
    }

    /// A segment with the header `h` and `len` bytes has something in the receive window. An
    /// empty segment is also taken at RCV.NXT while the window is closed.
    pub open spec fn acceptable(self, h: TcpHeader, len: int) -> bool {
        let d = self.seq_delta(h);
        let w = self.rcv.window();
        let n = segment_space(h, len);
        if n == 0 {
            if w == 0 {
                d == 0
            } else {
                0 <= d < w
            }
        } else {
            w > 0 && (0 <= d < w || 0 <= d + n - 1 < w)
        }
    }

    /// The connection after a reset from the peer was taken: the error is latched and the
    /// connection is gone.
    pub open spec fn reset_by_peer(self) -> ConnectionView {
        self.latching(TcpError::ResetReceived).shut()
    }

    /// The connection after the selective acknowledgments of `h` were noted.
    pub open spec fn sack_noted(self, h: TcpHeader) -> ConnectionView {
        match h.selective_acks {
            Some(blocks) if self.tcb.sack_permitted => ConnectionView {
                snd: sack_all(self.snd, self.tcb.iss, blocks@),
                ..self
            },
            _ => self,
        }
    }

    /// The segment with the header `h` may set the send window: it is newer than the one
    /// that set it last.
    pub open spec fn updates_window(self, h: TcpHeader) -> bool {
        seq_lt(self.tcb.snd_wl1, h.seq) || (self.tcb.snd_wl1 == h.seq && seq_le(
            self.tcb.snd_wl2,
            h.ack,
        ))
    }

    /// The connection after the window of `h` was noted. What has been sent behind a
    /// window that has shrunk counts as not sent.
    pub open spec fn window_noted(self, h: TcpHeader) -> ConnectionView {
        if self.updates_window(h) {
            let wnd = scaled_window(h.window_size, self.tcb.snd_wscale);
            ConnectionView {
                tcb: Tcb { snd_wnd: wnd, snd_wl1: h.seq, snd_wl2: h.ack, ..self.tcb },
                snd: self.snd.shrunk_to(wnd as int),
                ..self
            }
        } else {
            self
        }
    }

    /// The connection after the timestamp of `h` was noted. It is kept for the echo if the
    /// segment does not start behind RCV.NXT.
    pub open spec fn timestamp_noted(self, h: TcpHeader) -> ConnectionView {
        match h.timestamp {
            Some(t) if self.tcb.ts_permitted && self.seq_delta(h) <= 0 => ConnectionView {
                tcb: Tcb { ts_recent: t, ..self.tcb },
                ..self
            },
            _ => self,
        }
    }

    /// The connection after the acknowledgment of `h`, which does not acknowledge more than
    /// is in flight, was taken in at the time `now`. The segment has `len` bytes.
    ///
    /// An acknowledgment of something new moves the oldest unacknowledged offset, measures
    /// the round trip if it completes one, and sets the retransmission timer anew, or stops
    /// it if nothing is in flight any more. One that acknowledges nothing new while
    /// something is in flight, in a segment without bytes, is counted as a duplicate.
    #[verifier::opaque]
    pub open spec fn ack_taken(self, now: u64, h: TcpHeader, len: int) -> ConnectionView {
        let a = self.ack_delta(h);
        if a > 0 {
            let ack = (self.snd.una + a) as u64;
            let snd = self.snd.acked(ack);
            let rtt = match self.snd.round_trip_start(ack) {
                Some(t) => self.tcb.rtt.sampled_with(elapsed(now, t)),
                None => self.tcb.rtt,
            };
            let c = ConnectionView { snd, tcb: Tcb { rtt, dup_acks: 0, ..self.tcb }, ..self };
            if snd.in_flight() > 0 {
                c.rearmed(now)
            } else {
                ConnectionView { tcb: Tcb { rto_deadline: None, ..c.tcb }, ..c }
            }
        } else if a == 0 && self.snd.in_flight() > 0 && len == 0 {
            ConnectionView {
                tcb: Tcb {
                    dup_acks: if self.tcb.dup_acks < u32::MAX {
                        (self.tcb.dup_acks + 1) as u32
                    } else {
                        u32::MAX
                    },
                    ..self.tcb
                },
                ..self
            }
        } else {
            self
        }
    }

    /// The connection after everything that the header `h` acknowledges and announces was
    /// taken in: the acknowledgment, the selective acknowledgments, the window and the
    /// timestamp, in this order.
    #[verifier::opaque]
    pub open spec fn acknowledged(self, now: u64, h: TcpHeader, len: int) -> ConnectionView {
        let c = self.ack_taken(now, h, len).sack_noted(h);
        if self.ack_delta(h) >= 0 {
            c.window_noted(h).timestamp_noted(h)
        } else {
            c.timestamp_noted(h)
        }
    }

    /// The connection after it has looked whether its FIN is acknowledged: FIN-WAIT-1
    /// becomes FIN-WAIT-2, CLOSING becomes TIME-WAIT and LAST-ACK becomes CLOSED.
    pub open spec fn settled(self, now: u64) -> ConnectionView {
        if !self.snd.fin_acked() {
            self
        } else if self.tcb.state == StateTag::FinWaitOne {
            ConnectionView { tcb: Tcb { state: StateTag::FinWaitTwo, ..self.tcb }, ..self }
        } else if self.tcb.state == StateTag::Closing {
            self.waiting(now)
        } else if self.tcb.state == StateTag::LastAck {
            self.shut()
        } else {
            self
        }
    }

    /// The connection after the bytes of a segment with the header `h` were taken in at the
    /// time `now`.
    ///
    /// Bytes are taken in ESTABLISHED, FIN-WAIT-1 and FIN-WAIT-2. If they bring nothing new
    /// in order, or if blocks waited or wait behind a gap, an acknowledgment is made at
    /// once. If not, the new bytes are owed an acknowledgment: it is made at once when two
    /// full segments are owed, and otherwise the delayed-acknowledgment timer is set, unless
    /// it counts already.
    #[verifier::opaque]
    pub open spec fn delivered(self, now: u64, h: TcpHeader, payload: Seq<u8>) -> ConnectionView {
        if !self.tcb.state.takes_data() || payload.len() == 0 {
            self
        } else {
            let rcv = self.rcv.inserted(self.seq_delta(h), payload);
            let advanced = rcv.received() - self.rcv.received();
            let c = ConnectionView { rcv, ..self };
            let owed = self.tcb.ack_owed + advanced;
            if advanced == 0 || self.rcv.blocks.len() > 0 || rcv.blocks.len() > 0 || owed >= 2
                * MSS {
                c.acking(now)
            } else if self.tcb.ack_deadline is None {
                let at = instant_after(now, DELAYED_ACK);
                ConnectionView {
                    tcb: Tcb { ack_owed: owed as u64, ack_deadline: Some(at), ..c.tcb },
                    ..c
                }.asking(TimerKind::DelayedAck, at)
            } else {
                ConnectionView { tcb: Tcb { ack_owed: owed as u64, ..c.tcb }, ..c }
            }
        }
    }

    /// The connection after the FIN of a segment with the header `h` and `len` bytes was
    /// taken in at the time `now`, the bytes having been taken in before.
    ///
    /// Once the FIN has arrived in order it is acknowledged, and ESTABLISHED becomes
    /// CLOSE-WAIT, FIN-WAIT-2 becomes TIME-WAIT, and FIN-WAIT-1 becomes TIME-WAIT if the
    /// local FIN is acknowledged and CLOSING if not.
    #[verifier::opaque]
    pub open spec fn finished(self, now: u64, h: TcpHeader, len: int) -> ConnectionView {
        let c = if self.tcb.state.takes_data() && h.flags.has(TcpFlags::FIN) {
            ConnectionView {
                rcv: self.rcv.with_fin(seq_diff(seq_add(h.seq, len), self.rcv_nxt())),
                ..self
            }
        } else {
            self
        };
        if !(c.tcb.state.takes_data() && c.rcv.fin_reached) {
            c
        } else {
            let a = c.acking(now);
            if c.tcb.state == StateTag::Established {
                ConnectionView { tcb: Tcb { state: StateTag::CloseWait, ..a.tcb }, ..a }
            } else if c.tcb.state == StateTag::FinWaitOne && !c.snd.fin_acked() {
                ConnectionView { tcb: Tcb { state: StateTag::Closing, ..a.tcb }, ..a }
            } else {
                a.waiting(now)
            }
        }
    }

    /// The connection, in one of the states from ESTABLISHED to LAST-ACK, after a segment
    /// with the header `h` and the bytes `payload` arrived at the time `now`.
    ///
    /// A reset is taken if its sequence number lies in the receive window, and dropped if
    /// not. A FIN that arrives in TIME-WAIT is acknowledged again and sets the timer anew.
    /// A segment that has nothing in the window, one with a SYN, and one that acknowledges
    /// what has not been sent are answered with an acknowledgment and dropped. A segment
    /// without an acknowledgment is dropped. Of every other segment the acknowledgment, the
    /// bytes and the FIN are taken in, in this order.
    #[verifier::opaque]
    pub open spec fn pushed_synchronized(
        self,
        now: u64,
        h: TcpHeader,
        payload: Seq<u8>,
    ) -> ConnectionView {
        if h.flags.has(TcpFlags::RST) {
            if self.in_window(h) {
                self.reset_by_peer()
            } else {
                self
            }
        } else if self.tcb.state == StateTag::TimeWait && h.flags.has(TcpFlags::FIN) {
            self.acking(now).waiting(now)
        } else if !self.acceptable(h, payload.len() as int) || h.flags.has(TcpFlags::SYN) {
            self.acking(now)
        } else if !h.flags.has(TcpFlags::ACK) {
            self
        } else if self.ack_delta(h) > self.snd.in_flight() {
            self.acking(now)
        } else {
            self.acknowledged(now, h, payload.len() as int).settled(now).delivered(
                now,
                h,
                payload,
            ).finished(now, h, payload.len() as int)
        }
    }

    /// The acknowledgment of `h` is the one that the local SYN asks for.
    pub open spec fn acks_syn(self, h: TcpHeader) -> bool {
        h.flags.has(TcpFlags::ACK) && h.ack == seq_add(self.tcb.iss, 1)
    }

    /// The round-trip estimate after the handshake was completed at the time `now`: the
    /// round trip of the SYN is measured if the SYN was sent only once.
    pub open spec fn handshake_rtt(self, now: u64) -> RttEstimator {
        if self.tcb.syn_attempts == 1 {
            self.tcb.rtt.sampled_with(elapsed(now, self.tcb.opened_at))
        } else {
            self.tcb.rtt
        }
    }

    /// The connection, in SYN-SENT, after a segment with the header `h` arrived at the time
    /// `now`.
    ///
    /// An acknowledgment of anything but the SYN is answered with a reset, unless the
    /// segment is a reset itself. A reset that acknowledges the SYN ends the connection. A
    /// SYN that acknowledges the SYN completes the handshake; a SYN alone is answered, and
    /// the connection waits in SYN-RECEIVED. Everything else is dropped.
    #[verifier::opaque]
    pub open spec fn pushed_syn_sent(self, now: u64, h: TcpHeader) -> ConnectionView {
        if h.flags.has(TcpFlags::ACK) && !self.acks_syn(h) {
            if h.flags.has(TcpFlags::RST) {
                self
            } else {
                self.emitting(self.reset_reply(h))
            }
        } else if h.flags.has(TcpFlags::RST) {
            if self.acks_syn(h) {
                self.reset_by_peer()
            } else {
                self
            }
        } else if h.flags.has(TcpFlags::SYN) {
            let tcb = negotiated(self.tcb, h);
            if self.acks_syn(h) {
                ConnectionView {
                    tcb: Tcb {
                        state: StateTag::Established,
                        was_established: true,
                        rto_deadline: None,
                        rtt: self.handshake_rtt(now),
                        ..tcb
                    },
                    ..self
                }.acking(now)
            } else {
                let c = ConnectionView {
                    tcb: Tcb { state: StateTag::SynReceived, ..tcb },
                    ..self
                };
                c.emitting(
                    SegmentView { header: c.syn_header(now, true), payload: Seq::empty() },
                )
            }
        } else {
            self
        }
    }

    /// The connection, in SYN-RECEIVED, after a segment with the header `h` and the bytes
    /// `payload` arrived at the time `now`.
    ///
    /// A reset is taken if its sequence number lies in the receive window, and dropped if
    /// not. A segment with a SYN is answered with an acknowledgment, which completes the
    /// handshake of a peer that opened at the same time. A segment without an
    /// acknowledgment is dropped. An acknowledgment of anything but the SYN is answered
    /// with a reset. An acknowledgment of the SYN completes the handshake, and the segment
    /// is then taken in as in ESTABLISHED.
    #[verifier::opaque]
    pub open spec fn pushed_syn_received(
        self,
        now: u64,
        h: TcpHeader,
        payload: Seq<u8>,
    ) -> ConnectionView {
        if h.flags.has(TcpFlags::RST) {
            if self.in_window(h) {
                self.reset_by_peer()
            } else {
                self
            }
        } else if h.flags.has(TcpFlags::SYN) {
            self.acking(now)
        } else if !h.flags.has(TcpFlags::ACK) {
            self
        } else if !self.acks_syn(h) {
            self.emitting(self.reset_reply(h))
        } else {
            ConnectionView {
                tcb: Tcb {
                    state: StateTag::Established,
                    was_established: true,
                    rto_deadline: None,
                    rtt: self.handshake_rtt(now),
                    snd_wnd: scaled_window(h.window_size, self.tcb.snd_wscale),
                    snd_wl1: h.seq,
                    snd_wl2: h.ack,
                    ..self.tcb
                },
                ..self
            }.pushed_synchronized(now, h, payload)
        }
    }

    /// The segment with the header `h` runs between the two ends of the connection.
    pub open spec fn owns(self, h: TcpHeader) -> bool {
        h.source() == self.tcb.remote && h.destination() == self.tcb.local
    }

    /// The connection after a segment with the header `h` and the bytes `payload` arrived
    /// at the time `now`. A segment of another connection is dropped, and so is every
    /// segment once the connection has been reset or is gone.
    pub open spec fn pushed(self, now: u64, h: TcpHeader, payload: Seq<u8>) -> ConnectionView {
        if !self.owns(h) {
            self
        } else if self.tcb.state == StateTag::SynSent {
            self.pushed_syn_sent(now, h)
        } else if self.tcb.state == StateTag::SynReceived {
            self.pushed_syn_received(now, h, payload)
        } else if self.tcb.state.is_synchronized() {
            self.pushed_synchronized(now, h, payload)
        } else {
            self
        }
    }

    /// The connection has something for the wire: a segment that is ready, or something
    /// new in the send buffer that the send window lets through.
    pub open spec fn wants_to_send(self) -> bool {
        self.egress.len() > 0 || (self.tcb.state.can_transmit() && self.snd.sendable(
            self.tcb.snd_wnd as int,
        ))
    }

    /// The segment that carries `o` from the send buffer, made at the time `now`. It
    /// acknowledges, and it asks for a push if it carries the last byte of the buffer.
    pub open spec fn data_segment(self, now: u64, o: OutgoingView) -> SegmentView {
        SegmentView {
            header: self.header(
                now,
                TcpFlags::of_control(
                    o.fin,
                    false,
                    false,
                    o.payload.len() > 0 && o.start + o.payload.len() == self.snd.end,
                    true,
                ),
                seq_add(self.tcb.iss, o.start as int),
            ),
            payload: o.payload,
        }
    }

    /// The connection after the host asked for a segment at the time `now`, and what the
    /// host gets.
    ///
    /// The oldest segment that is ready goes first. If none is ready, the next new segment
    /// is made from the send buffer; it carries the acknowledgment that may be owed, and
    /// the retransmission timer is set unless it counts already.
    pub open spec fn popped(self, now: u64) -> (ConnectionView, Result<SegmentView, PopPacketError>) {
        if self.egress.len() > 0 {
            (ConnectionView { egress: self.egress.drop_first(), ..self }, Ok(self.egress[0]))
        } else if self.tcb.state.can_transmit() && self.snd.sendable(self.tcb.snd_wnd as int) {
            let o = self.snd.next_segment(self.tcb.snd_wnd as int, MSS as int);
            let c = ConnectionView {
                snd: self.snd.transmitted(self.tcb.snd_wnd as int, MSS as int, now),
                tcb: Tcb { ack_owed: 0, ack_deadline: None, ..self.tcb },
                ..self
            };
            (
                if self.tcb.rto_deadline is None {
                    c.rearmed(now)
                } else {
                    c
                },
                Ok(self.data_segment(now, o)),
            )
        } else {
            (self, Err(PopPacketError::NoPacket))
        }
    }

    /// The timer `t` still applies: it was set by this connection, for the instant that the
    /// connection now waits for, and the connection is in a state in which a timer of this
    /// kind has something to do.
    pub open spec fn timer_applies(self, t: Timer) -> bool {
        &&& t.local == self.tcb.local
        &&& t.remote == self.tcb.remote
        &&& match t.kind {
            TimerKind::Retransmit => self.tcb.rto_deadline == Some(t.at) && (
            self.tcb.state.is_handshake() || self.tcb.state.is_synchronized()),
            TimerKind::DelayedAck => self.tcb.ack_deadline == Some(t.at)
                && self.tcb.state.is_synchronized(),
            TimerKind::TimeWait => self.tcb.time_wait_deadline == Some(t.at) && self.tcb.state
                == StateTag::TimeWait,
            TimerKind::Reset => self.tcb.state == StateTag::Rst,
        }
    }

    /// The connection after its retransmission timer fired at the time `now`.
    ///
    /// During the handshake the SYN is sent again and the timeout doubles; after five SYNs,
    /// or two minutes, the attempt is given up: the error is latched and the connection is
    /// gone. Later the oldest segment in flight that the peer has not reported is sent
    /// again and the timeout doubles; if nothing is in flight the timer just stops.
    #[verifier::opaque]
    pub open spec fn retransmitted(self, now: u64) -> ConnectionView {
        if self.tcb.state.is_handshake() {
            if self.tcb.syn_attempts >= MAX_SYN_ATTEMPTS || elapsed(now, self.tcb.opened_at)
                >= CONNECT_TIMEOUT {
                self.latching(TcpError::TimedOut).shut()
            } else {
                let c = ConnectionView {
                    tcb: Tcb {
                        syn_attempts: (self.tcb.syn_attempts + 1) as u32,
                        rtt: self.tcb.rtt.backed_off(),
                        ..self.tcb
                    },
                    ..self
                };
                c.emitting(
                    SegmentView {
                        header: c.syn_header(now, c.tcb.state == StateTag::SynReceived),
                        payload: Seq::empty(),
                    },
                ).rearmed(now)
            }
        } else if self.snd.in_flight() == 0 {
            ConnectionView { tcb: Tcb { rto_deadline: None, ..self.tcb }, ..self }
        } else {
            let c = ConnectionView {
                snd: self.snd.timed_out(now),
                tcb: Tcb { rtt: self.tcb.rtt.backed_off(), ..self.tcb },
                ..self
            };
            (match self.snd.retransmission() {
                Some(o) => c.emitting(
                    SegmentView {
                        header: c.header(
                            now,
                            TcpFlags::of_control(o.fin, false, false, false, true),
                            seq_add(c.tcb.iss, o.start as int),
                        ),
                        payload: o.payload,
                    },
                ),
                None => c,
            }).rearmed(now)
        }
    }

    /// The connection after the timer `t` fired at the time `now`. A timer that does not
    /// apply any more changes nothing.
    pub open spec fn timer_fired(self, now: u64, t: Timer) -> ConnectionView {
        if !self.timer_applies(t) {
            self
        } else {
            match t.kind {
                TimerKind::Retransmit => self.retransmitted(now),
                TimerKind::DelayedAck => self.acking(now),
                TimerKind::TimeWait => self.shut(),
                TimerKind::Reset => self.shut(),
            }
        }
    }

    /// The connection with the FIN queued, in the state `state`.
    pub open spec fn closing_into(self, state: StateTag) -> ConnectionView {
        ConnectionView {
            snd: SendBufferView { fin_queued: true, ..self.snd },
            tcb: Tcb { state, ..self.tcb },
            ..self
        }
    }

    /// The connection after the application closed it, and what the application gets.
    ///
    /// In SYN-SENT the connection is gone at once. In SYN-RECEIVED and ESTABLISHED the FIN
    /// is queued and the state becomes FIN-WAIT-1; in CLOSE-WAIT it becomes LAST-ACK. In
    /// every other state the call is refused.
    pub open spec fn closed(self) -> (ConnectionView, Result<(), CloseError>) {
        if self.tcb.state == StateTag::SynSent {
            (self.shut(), Ok(()))
        } else if self.tcb.state == StateTag::SynReceived || self.tcb.state
            == StateTag::Established {
            (self.closing_into(StateTag::FinWaitOne), Ok(()))
        } else if self.tcb.state == StateTag::CloseWait {
            (self.closing_into(StateTag::LastAck), Ok(()))
        } else {
            (self, Err(CloseError::InvalidState))
        }
    }

    /// The reset that ends the connection from the local side.
    pub open spec fn reset_segment(self, now: u64) -> SegmentView {
        SegmentView {
            header: self.header(
                now,
                TcpFlags::of_control(false, false, true, false, true),
                self.snd_nxt(),
            ),
            payload: Seq::empty(),
        }
    }

    /// The connection after it was told at the time `now` to close with a reset, and what
    /// the caller gets.
    ///
    /// In SYN-RECEIVED and in the states from ESTABLISHED to LAST-ACK a reset is made ready
    /// for the wire, the error is latched and the connection waits in the RST state for the
    /// timer that puts it away. In every other state the call is refused.
    pub open spec fn reset(self, now: u64) -> (ConnectionView, Result<(), RstCloseError>) {
        if self.tcb.state == StateTag::SynReceived || self.tcb.state.is_synchronized() {
            let c = self.emitting(self.reset_segment(now)).latching(TcpError::ResetSent);
            (
                ConnectionView {
                    tcb: Tcb {
                        state: StateTag::Rst,
                        rto_deadline: None,
                        ack_deadline: None,
                        time_wait_deadline: None,
                        ..c.tcb
                    },
                    ..c
                }.asking(TimerKind::Reset, now),
                Ok(()),
            )
        } else {
            (self, Err(RstCloseError::InvalidState))
        }
    }

    /// The number of bytes that `send` would take now: the room of the send buffer while the
    /// application can write, and none otherwise.
    pub open spec fn send_room(self) -> int {
        if self.tcb.state.can_write() && !self.snd.fin_queued {
            self.snd.room()
        } else {
            0
        }
    }

    /// What the application gets when it hands over `avail` bytes and wants at most `len`
    /// of them taken.
    pub open spec fn send_result(self, avail: int, len: int) -> Result<usize, SendError> {
        if self.tcb.state.is_handshake() {
            Err(SendError::NotConnected)
        } else if self.tcb.state.can_write() {
            crate::send_buffer::append_result(self.snd, avail, len)
        } else if self.tcb.state.is_synchronized() {
            Err(SendError::StreamClosed)
        } else {
            Err(SendError::InvalidState)
        }
    }

    /// The connection after the application handed over `bytes` and wanted at most `len` of
    /// them taken.
    pub open spec fn sent(self, bytes: Seq<u8>, len: int) -> ConnectionView {
        match self.send_result(bytes.len() as int, len) {
            Ok(n) => ConnectionView { snd: self.snd.appended(bytes.take(n as int)), ..self },
            Err(_) => self,
        }
    }

    /// What the application gets when it asks for at most `len` bytes: their number, or
    /// why there are none.
    pub open spec fn recv_result(self, len: int) -> Result<usize, RecvError> {
        if self.tcb.state.is_handshake() {
            Err(RecvError::NotConnected)
        } else if !self.tcb.state.is_synchronized() {
            Err(RecvError::InvalidState)
        } else if self.rcv.readable.len() == 0 {
            if self.rcv.fin_reached {
                Err(RecvError::StreamClosed)
            } else {
                Err(RecvError::Empty)
            }
        } else if len < self.rcv.readable.len() {
            Ok(len as usize)
        } else {
            Ok(self.rcv.readable.len() as usize)
        }
    }

    /// The connection after the application asked at the time `now` for at most `len`
    /// bytes. If that opens a window that was smaller than a full segment, the peer is told
    /// with an acknowledgment.
    pub open spec fn received(self, now: u64, len: int) -> ConnectionView {
        match self.recv_result(len) {
            Ok(n) => {
                let c = ConnectionView { rcv: self.rcv.drained(n as int), ..self };
                if self.rcv.window() < MSS && c.rcv.window() >= MSS {
                    c.acking(now)
                } else {
                    c
                }
            },
            Err(_) => self,
        }
    }

    /// What `poll` reports of the connection.
    pub open spec fn readiness(self) -> Readiness {
        let gone = self.tcb.state == StateTag::Rst || self.tcb.state == StateTag::Closed;
        Readiness {
            readable: self.rcv.readable.len() > 0 || self.rcv.fin_delivered(),
            writable: self.tcb.state.can_write() && self.snd.room() > 0,
            error: self.tcb.error is Some,
            recv_closed: self.rcv.fin_delivered() || gone,
            send_closed: self.snd.fin_queued || gone,
            ready_to_accept: false,
            established: self.tcb.was_established,
            closed: self.tcb.state == StateTag::Closed,
        }
    }
}

/// Executable form of [`elapsed`].
pub fn time_since(now: u64, then: u64) -> (r: u64)
    ensures
        r == elapsed(now, then),
{
    if now >= then {
        now - then
    } else {
        0
    }
}

/// Executable form of [`fresh_tcb`].
fn new_tcb(state: StateTag, now: u64, local: Endpoint, remote: Endpoint) -> (r: Tcb)
    ensures
        r == fresh_tcb(state, now, local, remote),
{
    Tcb {
        state,
        local,
        remote,
        iss: initial_sequence_at(now),
        irs: 0,
        snd_wnd: 0,
        snd_wl1: 0,
        snd_wl2: 0,
        snd_wscale: 0,
        rcv_wscale: 0,
        wscale_permitted: false,
        sack_permitted: false,
        ts_permitted: false,
        ts_recent: 0,
        rtt: RttEstimator::new(),
        dup_acks: 0,
        error: None,
        syn_attempts: 1,
        opened_at: now,
        rto_deadline: None,
        ack_deadline: None,
        time_wait_deadline: None,
        ack_owed: 0,
        was_established: false,
    }
}

/// Executable form of [`negotiated`].
fn negotiate(tcb: Tcb, h: &TcpHeader) -> (r: Tcb)
    ensures
        r == negotiated(tcb, *h),
{
    let mut r = tcb;
    r.irs = h.seq;
    r.wscale_permitted = h.window_scale.is_some();
    r.snd_wscale = match h.window_scale {
        Some(s) => if s > MAX_WINDOW_SHIFT {
            MAX_WINDOW_SHIFT
        } else {
            s
        },
        None => 0,
    };
    r.rcv_wscale = if h.window_scale.is_some() {
        WINDOW_SHIFT
    } else {
        0
    };
    r.sack_permitted = h.selective_acks.is_some();
    r.ts_permitted = h.timestamp.is_some();
    r.ts_recent = match h.timestamp {
        Some(t) => t,
        None => 0,
    };
    r.snd_wnd = h.window_size as u32;
    r.snd_wl1 = h.seq;
    r.snd_wl2 = h.ack;
    r
}

/// Executable form of [`segment_space`].
fn space_of(h: &TcpHeader, len: usize) -> (n: i128)
    ensures
        n == segment_space(*h, len as int),
{
    len as i128 + (if h.flags.contains(TcpFlags::SYN) {
        1
    } else {
        0
    }) + (if h.flags.contains(TcpFlags::FIN) {
        1
    } else {
        0
    })
}

/// One TCP connection.
#[derive(Debug)]
pub struct Connection {
    tcb: Tcb,
    snd: SendBuffer,
    rcv: RecvBuffer,
    egress: Vec<Segment>,
    timers: Vec<Timer>,
}

impl View for Connection {
    type V = ConnectionView;

    closed spec fn view(&self) -> ConnectionView {
        ConnectionView {
            tcb: self.tcb,
            snd: self.snd@,
            rcv: self.rcv@,
            egress: segment_views(self.egress@),
            timers: self.timers@,
        }
    }
}

impl Connection {
    pub open spec fn wf(&self) -> bool {
        self@.wf()
    }

    /// The state of the connection.
    pub fn state(&self) -> (r: StateTag)
        ensures
            r == self@.tcb.state,
    {
        self.tcb.state
    }

    /// The control block of the connection.
    pub fn tcb(&self) -> (r: Tcb)
        ensures
            r == self@.tcb,
    {
        self.tcb
    }

    /// The local end of the connection.
    pub fn local_addr(&self) -> (r: Endpoint)
        ensures
            r == self@.tcb.local,
    {
        self.tcb.local
    }

    /// The peer's end of the connection.
    pub fn remote_addr(&self) -> (r: Endpoint)
        ensures
            r == self@.tcb.remote,
    {
        self.tcb.remote
    }

    /// SND.UNA as it goes on the wire.
    pub fn snd_una(&self) -> (r: u32)
        ensures
            r == self@.snd_una(),
    {
        if self.tcb.state.handshake() {
            self.tcb.iss
        } else {
            wire(self.tcb.iss, self.snd.una())
        }
    }

    /// SND.NXT as it goes on the wire.
    pub fn snd_nxt(&self) -> (r: u32)
        ensures
            r == self@.snd_nxt(),
    {
        wire(self.tcb.iss, self.snd.nxt())
    }

    /// RCV.NXT as it goes on the wire.
    pub fn rcv_nxt(&self) -> (r: u32)
        ensures
            r == self@.rcv_nxt(),
    {
        wire(self.tcb.irs, self.rcv.next())
    }

    /// The number of bytes that `send` would take now.
    pub fn send_room(&self) -> (r: usize)
        requires
            self.wf(),
        ensures
            r == self@.send_room(),
    {
        if self.tcb.state.writable() && !self.snd.fin_queued() {
            self.snd.room()
        } else {
            0
        }
    }

    /// The segments that the connection has ready for the wire are none.
    pub fn egress_is_empty(&self) -> (r: bool)
        ensures
            r == (self@.egress.len() == 0),
    {
        self.egress.len() == 0
    }

    /// Executable form of [`ConnectionView::owns`].
    pub fn owns(&self, h: &TcpHeader) -> (r: bool)
        ensures
            r == self@.owns(*h),
    {
        let src = h.src();
        let dst = h.dst();
        src.ip == self.tcb.remote.ip && src.port == self.tcb.remote.port && dst.ip
            == self.tcb.local.ip && dst.port == self.tcb.local.port
    }

    /// Hands over the timers that the connection wants set.
    pub fn take_timers(&mut self) -> (r: Vec<Timer>)
        ensures
            r@ == old(self)@.timers,
            final(self)@ == old(self)@.flushed(),
    {
        let mut out: Vec<Timer> = Vec::new();
        core::mem::swap(&mut self.timers, &mut out);
        out
    }

    /// Hands over the segments that the connection has ready for the wire.
    pub fn take_egress(&mut self) -> (r: Vec<Segment>)
        ensures
            segment_views(r@) == old(self)@.egress,
            final(self)@ == (ConnectionView { egress: Seq::empty(), ..old(self)@ }),
    {
        let mut out: Vec<Segment> = Vec::new();
        core::mem::swap(&mut self.egress, &mut out);
        assert(segment_views(self.egress@) =~= Seq::<SegmentView>::empty());
        out
    }

    /// Executable form of [`ConnectionView::abort_segment`].
    pub fn abort_segment(&self) -> (r: Segment)
        ensures
            r@ == self@.abort_segment(),
    {
        Segment {
            header: TcpHeader {
                ip: Ipv4Header { src: self.tcb.local.ip, dst: self.tcb.remote.ip },
                flags: TcpFlags::control(false, false, true, false, true),
                src_port: self.tcb.local.port,
                dst_port: self.tcb.remote.port,
                seq: self.snd_nxt(),
                ack: self.rcv_nxt(),
                window_size: 0,
                selective_acks: None,
                window_scale: None,
                timestamp: None,
                timestamp_echo: None,
            },
            payload: Vec::new(),
        }
    }

    fn advertised(&self) -> (r: u16)
        requires
            self.wf(),
        ensures
            r == self@.advertised(),
    {
        let w: usize = self.rcv.window();
        let f: usize = factor(self.tcb.rcv_wscale) as usize;
        let q: usize = w / f;
        if q > 65535 {
            65535
        } else {
            q as u16
        }
    }

    fn sack_option(&self) -> (r: Option<SackBlocks>)
        requires
            self.wf(),
        ensures
            r == self@.sack_option(),
    {
        if self.tcb.sack_permitted && self.rcv.has_gap() {
            let ranges: Vec<(u64, u64)> = self.rcv.advertise_sack();
            let mut out: Vec<(u32, u32)> = Vec::new();
            let mut i: usize = 0;
            while i < ranges.len()
                invariant
                    i <= ranges@.len(),
                    out@.len() == i,
                    forall|k: int|
                        0 <= k < i ==> out@[k] == (
                            seq_add(self.tcb.irs, ranges@[k].0 as int),
                            seq_add(self.tcb.irs, ranges@[k].1 as int),
                        ),
                decreases ranges@.len() - i,
            {
                let r = ranges[i];
                out.push((wire(self.tcb.irs, r.0), wire(self.tcb.irs, r.1)));
                i = i + 1;
            }
            assert(out@ =~= wire_ranges(self.tcb.irs, self@.rcv.sack_ranges()));
            Some(SackBlocks::from_ranges(&out))
        } else {
            None
        }
    }

    fn header(&self, now: u64, flags: TcpFlags, seq: u32) -> (r: TcpHeader)
        requires
            self.wf(),
        ensures
            r == self@.header(now, flags, seq),
    {
        let acks: bool = flags.contains(TcpFlags::ACK);
        TcpHeader {
            ip: Ipv4Header { src: self.tcb.local.ip, dst: self.tcb.remote.ip },
            flags,
            src_port: self.tcb.local.port,
            dst_port: self.tcb.remote.port,
            seq,
            ack: if acks {
                self.rcv_nxt()
            } else {
                0
            },
            window_size: self.advertised(),
            selective_acks: self.sack_option(),
            window_scale: None,
            timestamp: if self.tcb.ts_permitted {
                Some(timestamp_at(now))
            } else {
                None
            },
            timestamp_echo: if self.tcb.ts_permitted && acks {
                Some(self.tcb.ts_recent)
            } else {
                None
            },
        }
    }

    fn syn_header(&self, now: u64, answer: bool) -> (r: TcpHeader)
        requires
            self.wf(),
        ensures
            r == self@.syn_header(now, answer),
    {
        let w: usize = self.rcv.window();
        TcpHeader {
            ip: Ipv4Header { src: self.tcb.local.ip, dst: self.tcb.remote.ip },
            flags: TcpFlags::control(false, true, false, false, answer),
            src_port: self.tcb.local.port,
            dst_port: self.tcb.remote.port,
            seq: self.tcb.iss,
            ack: if answer {
                self.rcv_nxt()
            } else {
                0
            },
            window_size: if w > 65535 {
                65535
            } else {
                w as u16
            },
            selective_acks: if !answer || self.tcb.sack_permitted {
                Some(SackBlocks::empty())
            } else {
                None
            },
            window_scale: if !answer || self.tcb.wscale_permitted {
                Some(WINDOW_SHIFT)
            } else {
                None
            },
            timestamp: if !answer || self.tcb.ts_permitted {
                Some(timestamp_at(now))
            } else {
                None
            },
            timestamp_echo: if answer && self.tcb.ts_permitted {
                Some(self.tcb.ts_recent)
            } else {
                None
            },
        }
    }

    fn emit(&mut self, seg: Segment)
        ensures
            final(self)@ == old(self)@.emitting(seg@),
    {
        self.egress.push(seg);
        assert(segment_views(self.egress@) =~= segment_views(old(self).egress@).push(seg@));
    }

    fn ask(&mut self, kind: TimerKind, at: u64)
        ensures
            final(self)@ == old(self)@.asking(kind, at),
    {
        self.timers.push(Timer { kind, at, local: self.tcb.local, remote: self.tcb.remote });
    }

    fn send_ack(&mut self, now: u64)
        requires
            old(self).wf(),
        ensures
            final(self)@ == old(self)@.acking(now),
            final(self).wf(),
    {
        let header = self.header(
            now,
            TcpFlags::control(false, false, false, false, true),
            self.snd_nxt(),
        );
        self.emit(Segment { header, payload: Vec::new() });
        self.tcb.ack_owed = 0;
        self.tcb.ack_deadline = None;
    }

    fn reply_reset(&mut self, h: &TcpHeader)
        ensures
            final(self)@ == old(self)@.emitting(old(self)@.reset_reply(*h)),
    {
        let header = TcpHeader {
            ip: Ipv4Header { src: self.tcb.local.ip, dst: self.tcb.remote.ip },
            flags: TcpFlags::control(false, false, true, false, false),
            src_port: self.tcb.local.port,
            dst_port: self.tcb.remote.port,
            seq: h.ack,
            ack: 0,
            window_size: 0,
            selective_acks: None,
            window_scale: None,
            timestamp: None,
            timestamp_echo: None,
        };
        self.emit(Segment { header, payload: Vec::new() });
    }

    fn latch(&mut self, e: TcpError)
        ensures
            final(self)@ == old(self)@.latching(e),
    {
        if self.tcb.error.is_none() {
            self.tcb.error = Some(e);
        }
    }

    fn shut(&mut self)
        ensures
            final(self)@ == old(self)@.shut(),
    {
        self.tcb.state = StateTag::Closed;
        self.tcb.rto_deadline = None;
        self.tcb.ack_deadline = None;
        self.tcb.time_wait_deadline = None;
    }

    fn rearm(&mut self, now: u64)
        ensures
            final(self)@ == old(self)@.rearmed(now),
    {
        let at: u64 = after(now, self.tcb.rtt.rto);
        self.tcb.rto_deadline = Some(at);
        self.ask(TimerKind::Retransmit, at);
    }

    fn enter_time_wait(&mut self, now: u64)
        ensures
            final(self)@ == old(self)@.waiting(now),
    {
        let at: u64 = after(now, 2 * MSL);
        self.tcb.state = StateTag::TimeWait;
        self.tcb.time_wait_deadline = Some(at);
        self.tcb.rto_deadline = None;
        self.ask(TimerKind::TimeWait, at);
    }

    /// A connection that is opened actively at the time `now`.
    pub fn connect(now: u64, local: Endpoint, remote: Endpoint) -> (r: Connection)
        ensures
            r@ == ConnectionView::active(now, local, remote),
            r.wf(),
    {
        let mut c = Connection {
            tcb: new_tcb(StateTag::SynSent, now, local, remote),
            snd: SendBuffer::new(1, SEND_CAPACITY),
            rcv: RecvBuffer::new(1, RECV_CAPACITY),
            egress: Vec::new(),
            timers: Vec::new(),
        };
        assert(c@.egress =~= Seq::<SegmentView>::empty());
        let header = c.syn_header(now, false);
        c.emit(Segment { header, payload: Vec::new() });
        c.rearm(now);
        c
    }

    /// A connection that is opened at the time `now` by the SYN with the header `h`.
    pub fn accept_syn(now: u64, h: &TcpHeader) -> (r: Connection)
        ensures
            r@ == ConnectionView::passive(now, *h),
            r.wf(),
    {
        let mut c = Connection {
            tcb: negotiate(new_tcb(StateTag::SynReceived, now, h.dst(), h.src()), h),
            snd: SendBuffer::new(1, SEND_CAPACITY),
            rcv: RecvBuffer::new(1, RECV_CAPACITY),
            egress: Vec::new(),
            timers: Vec::new(),
        };
        assert(c@.egress =~= Seq::<SegmentView>::empty());
        let header = c.syn_header(now, true);
        c.emit(Segment { header, payload: Vec::new() });
        c.rearm(now);
        c
    }

    fn seq_delta(&self, h: &TcpHeader) -> (d: i64)
        ensures
            d == self@.seq_delta(*h),
            -0x8000_0000 <= d < 0x8000_0000,
    {
        distance(h.seq, self.rcv_nxt())
    }

    fn ack_delta(&self, h: &TcpHeader) -> (d: i64)
        ensures
            d == self@.ack_delta(*h),
            -0x8000_0000 <= d < 0x8000_0000,
    {
        distance(h.ack, wire(self.tcb.iss, self.snd.una()))
    }

    fn in_window(&self, h: &TcpHeader) -> (r: bool)
        requires
            self.wf(),
        ensures
            r == self@.in_window(*h),
    {
        in_window(h.seq, self.rcv_nxt(), self.rcv.window() as u32)
    }

    fn acceptable(&self, h: &TcpHeader, len: usize) -> (r: bool)
        requires
            self.wf(),
        ensures
            r == self@.acceptable(*h, len as int),
    {
        let d: i128 = self.seq_delta(h) as i128;
        let w: i128 = self.rcv.window() as i128;
        let n: i128 = space_of(h, len);
        if n == 0 {
            if w == 0 {
                d == 0
            } else {
                0 <= d && d < w
            }
        } else {
            w > 0 && ((0 <= d && d < w) || (0 <= d + n - 1 && d + n - 1 < w))
        }
    }

    fn reset_by_peer(&mut self)
        ensures
            final(self)@ == old(self)@.reset_by_peer(),
    {
        self.latch(TcpError::ResetReceived);
        self.shut();
    }

    fn note_sack_one(&mut self, b: (u32, u32))
        requires
            old(self).wf(),
        ensures
            final(self)@ == (ConnectionView {
                snd: sack_one(old(self)@.snd, old(self)@.tcb.iss, b),
                ..old(self)@
            }),
            final(self).wf(),
    {
        let una: u32 = wire(self.tcb.iss, self.snd.una());
        let lo: i64 = distance(b.0, una);
        let hi: i64 = distance(b.1, una);
        if 0 <= lo && lo < hi && hi as u64 <= self.snd.in_flight() {
            let base: u64 = self.snd.una();
            self.snd.on_sack(base + lo as u64, base + hi as u64);
        }
    }

    fn note_sack(&mut self, h: &TcpHeader)
        requires
            old(self).wf(),
        ensures
            final(self)@ == old(self)@.sack_noted(*h),
            final(self).wf(),
    {
        if !self.tcb.sack_permitted {
            return ;
        }
        match h.selective_acks {
            Some(blocks) => {
                let ghost all = blocks@;
                let n: usize = blocks.len();
                let mut i: usize = 0;
                assert(all.skip(0) =~= all);
                while i < n
                    invariant
                        self.wf(),
                        n == all.len(),
                        all == blocks@,
                        i <= n,
                        self@.tcb == old(self)@.tcb,
                        self@.rcv == old(self)@.rcv,
                        self@.egress == old(self)@.egress,
                        self@.timers == old(self)@.timers,
                        sack_all(old(self)@.snd, self.tcb.iss, all) == sack_all(
                            self@.snd,
                            self.tcb.iss,
                            all.skip(i as int),
                        ),
                    decreases n - i,
                {
                    let b = blocks.get(i);
                    proof {
                        assert(all.skip(i as int)[0] == all[i as int]);
                        assert(all.skip(i as int).drop_first() =~= all.skip(i as int + 1));
                    }
                    self.note_sack_one(b);
                    i = i + 1;
                }
                assert(all.skip(n as int) =~= Seq::<(u32, u32)>::empty());
            },
            None => {},
        }
    }

    fn note_window(&mut self, h: &TcpHeader)
        requires
            old(self).wf(),
        ensures
            final(self)@ == old(self)@.window_noted(*h),
            final(self).wf(),
    {
        let newer: bool = before(self.tcb.snd_wl1, h.seq) || (self.tcb.snd_wl1 == h.seq
            && at_or_before(self.tcb.snd_wl2, h.ack));
        if newer {
            let wnd: u32 = scale(h.window_size, self.tcb.snd_wscale);
            self.tcb.snd_wnd = wnd;
            self.tcb.snd_wl1 = h.seq;
            self.tcb.snd_wl2 = h.ack;
            self.snd.shrink_to_window(wnd);
        }
    }

    fn note_timestamp(&mut self, h: &TcpHeader)
        ensures
            final(self)@ == old(self)@.timestamp_noted(*h),
    {
        match h.timestamp {
            Some(t) => {
                if self.tcb.ts_permitted && self.seq_delta(h) <= 0 {
                    self.tcb.ts_recent = t;
                }
            },
            None => {},
        }
    }

    fn take_ack(&mut self, now: u64, h: &TcpHeader, len: usize)
        requires
            old(self).wf(),
            old(self)@.ack_delta(*h) <= old(self)@.snd.in_flight(),
        ensures
            final(self)@ == old(self)@.ack_taken(now, *h, len as int),
            final(self).wf(),
    {
        proof {
            reveal(ConnectionView::ack_taken);
        }
        let a: i64 = self.ack_delta(h);
        if a > 0 {
            let ack: u64 = self.snd.una() + a as u64;
            let sample = self.snd.on_cumulative_ack(ack);
            match sample {
                Some(t) => {
                    self.tcb.rtt.sample(time_since(now, t));
                },
                None => {},
            }
            self.tcb.dup_acks = 0;
            if self.snd.in_flight() > 0 {
                self.rearm(now);
            } else {
                self.tcb.rto_deadline = None;
            }
        } else if a == 0 && self.snd.in_flight() > 0 && len == 0 {
            if self.tcb.dup_acks < u32::MAX {
                self.tcb.dup_acks = self.tcb.dup_acks + 1;
            }
        }
    }

    fn acknowledge(&mut self, now: u64, h: &TcpHeader, len: usize)
        requires
            old(self).wf(),
            old(self)@.ack_delta(*h) <= old(self)@.snd.in_flight(),
        ensures
            final(self)@ == old(self)@.acknowledged(now, *h, len as int),
            final(self).wf(),
    {
        proof {
            reveal(ConnectionView::acknowledged);
        }
        let a: i64 = self.ack_delta(h);
        self.take_ack(now, h, len);
        self.note_sack(h);
        if a >= 0 {
            self.note_window(h);
        }
        self.note_timestamp(h);
    }

    fn settle(&mut self, now: u64)
        requires
            old(self).wf(),
        ensures
            final(self)@ == old(self)@.settled(now),
            final(self).wf(),
    {
        if !self.snd.fin_acked() {
            return ;
        }
        match self.tcb.state {
            StateTag::FinWaitOne => {
                self.tcb.state = StateTag::FinWaitTwo;
            },
            StateTag::Closing => {
                self.enter_time_wait(now);
            },
            StateTag::LastAck => {
                self.shut();
            },
            _ => {},
        }
    }

    fn deliver(&mut self, now: u64, h: &TcpHeader, payload: &[u8])
        requires
            old(self).wf(),
        ensures
            final(self)@ == old(self)@.delivered(now, *h, payload@),
            final(self).wf(),
    {
        proof {
            reveal(ConnectionView::delivered);
        }
        if !self.tcb.state.receiving() || payload.len() == 0 {
            return ;
        }
        let d: i64 = self.seq_delta(h);
        let before: u64 = self.rcv.received();
        let had_gap: bool = self.rcv.has_gap();
        self.rcv.insert(d, payload);
        let advanced: u64 = self.rcv.received() - before;
        let owed: u64 = self.tcb.ack_owed + advanced;
        if advanced == 0 || had_gap || self.rcv.has_gap() || owed >= 2 * MSS as u64 {
            self.send_ack(now);
        } else if self.tcb.ack_deadline.is_none() {
            let at: u64 = after(now, DELAYED_ACK);
            self.tcb.ack_owed = owed;
            self.tcb.ack_deadline = Some(at);
            self.ask(TimerKind::DelayedAck, at);
        } else {
            self.tcb.ack_owed = owed;
        }
    }

    fn finish(&mut self, now: u64, h: &TcpHeader, len: usize)
        requires
            old(self).wf(),
        ensures
            final(self)@ == old(self)@.finished(now, *h, len as int),
            final(self).wf(),
    {
        proof {
            reveal(ConnectionView::finished);
        }
        if self.tcb.state.receiving() && h.flags.contains(TcpFlags::FIN) {
            let end: u32 = wire(h.seq, len as u64);
            let delta: i64 = distance(end, self.rcv_nxt());
            self.rcv.peer_fin_at(delta);
        }
        if !(self.tcb.state.receiving() && self.rcv.fin_reached()) {
            return ;
        }
        let state = self.tcb.state;
        let fin_acked: bool = self.snd.fin_acked();
        self.send_ack(now);
        match state {
            StateTag::Established => {
                self.tcb.state = StateTag::CloseWait;
            },
            StateTag::FinWaitOne => {
                if fin_acked {
                    self.enter_time_wait(now);
                } else {
                    self.tcb.state = StateTag::Closing;
                }
            },
            _ => {
                self.enter_time_wait(now);
            },
        }
    }

    fn push_synchronized(&mut self, now: u64, h: &TcpHeader, payload: &[u8])
        requires
            old(self).wf(),
        ensures
            final(self)@ == old(self)@.pushed_synchronized(now, *h, payload@),
            final(self).wf(),
    {
        proof {
            reveal(ConnectionView::pushed_synchronized);
        }
        let len: usize = payload.len();
        if h.flags.contains(TcpFlags::RST) {
            if self.in_window(h) {
                self.reset_by_peer();
            }
        } else if self.tcb.state == StateTag::TimeWait && h.flags.contains(TcpFlags::FIN) {
            self.send_ack(now);
            self.enter_time_wait(now);
        } else if !self.acceptable(h, len) || h.flags.contains(TcpFlags::SYN) {
            self.send_ack(now);
        } else if !h.flags.contains(TcpFlags::ACK) {
        } else if self.ack_delta(h) > 0 && self.ack_delta(h) as u64 > self.snd.in_flight() {
            self.send_ack(now);
        } else {
            self.acknowledge(now, h, len);
            self.settle(now);
            self.deliver(now, h, payload);
            self.finish(now, h, len);
        }
    }

    fn handshake_rtt(&self, now: u64) -> (r: RttEstimator)
        requires
            self.wf(),
        ensures
            r == self@.handshake_rtt(now),
            r.wf(),
    {
        let mut rtt = self.tcb.rtt;
        if self.tcb.syn_attempts == 1 {
            rtt.sample(time_since(now, self.tcb.opened_at));
        }
        rtt
    }

    fn acks_syn(&self, h: &TcpHeader) -> (r: bool)
        ensures
            r == self@.acks_syn(*h),
    {
        h.flags.contains(TcpFlags::ACK) && h.ack == wire(self.tcb.iss, 1)
    }

    fn push_syn_sent(&mut self, now: u64, h: &TcpHeader)
        requires
            old(self).wf(),
            old(self)@.tcb.state.is_handshake(),
        ensures
            final(self)@ == old(self)@.pushed_syn_sent(now, *h),
            final(self).wf(),
    {
        proof {
            reveal(ConnectionView::pushed_syn_sent);
        }
        let acks_syn: bool = self.acks_syn(h);
        if h.flags.contains(TcpFlags::ACK) && !acks_syn {
            if !h.flags.contains(TcpFlags::RST) {
                self.reply_reset(h);
            }
        } else if h.flags.contains(TcpFlags::RST) {
            if acks_syn {
                self.reset_by_peer();
            }
        } else if h.flags.contains(TcpFlags::SYN) {
            let rtt = self.handshake_rtt(now);
            self.tcb = negotiate(self.tcb, h);
            if acks_syn {
                self.tcb.state = StateTag::Established;
                self.tcb.was_established = true;
                self.tcb.rto_deadline = None;
                self.tcb.rtt = rtt;
                self.send_ack(now);
            } else {
                self.tcb.state = StateTag::SynReceived;
                let header = self.syn_header(now, true);
                self.emit(Segment { header, payload: Vec::new() });
            }
        }
    }

    fn push_syn_received(&mut self, now: u64, h: &TcpHeader, payload: &[u8])
        requires
            old(self).wf(),
            old(self)@.tcb.state.is_handshake(),
        ensures
            final(self)@ == old(self)@.pushed_syn_received(now, *h, payload@),
            final(self).wf(),
    {
        proof {
            reveal(ConnectionView::pushed_syn_received);
        }
        if h.flags.contains(TcpFlags::RST) {
            if self.in_window(h) {
                self.reset_by_peer();
            }
        } else if h.flags.contains(TcpFlags::SYN) {
            self.send_ack(now);
        } else if !h.flags.contains(TcpFlags::ACK) {
        } else if !self.acks_syn(h) {
            self.reply_reset(h);
        } else {
            let rtt = self.handshake_rtt(now);
            self.tcb.state = StateTag::Established;
            self.tcb.was_established = true;
            self.tcb.rto_deadline = None;
            self.tcb.rtt = rtt;
            self.tcb.snd_wnd = scale(h.window_size, self.tcb.snd_wscale);
            self.tcb.snd_wl1 = h.seq;
            self.tcb.snd_wl2 = h.ack;
            self.push_synchronized(now, h, payload);
        }
    }

    /// Takes in a segment with the header `h` and the bytes `payload` that arrived at the
    /// time `now`.
    pub fn push_packet(&mut self, now: u64, h: &TcpHeader, payload: &[u8])
        requires
            old(self).wf(),
        ensures
            final(self)@ == old(self)@.pushed(now, *h, payload@),
            final(self).wf(),
    {
        if !self.owns(h) {
            return ;
        }
        match self.tcb.state {
            StateTag::SynSent => {
                self.push_syn_sent(now, h);
            },
            StateTag::SynReceived => {
                self.push_syn_received(now, h, payload);
            },
            StateTag::Established
            | StateTag::FinWaitOne
            | StateTag::FinWaitTwo
            | StateTag::Closing
            | StateTag::TimeWait
            | StateTag::CloseWait
            | StateTag::LastAck => {
                self.push_synchronized(now, h, payload);
            },
            _ => {},
        }
    }

    /// Executable form of [`ConnectionView::wants_to_send`].
    pub fn wants_to_send(&self) -> (r: bool)
        requires
            self.wf(),
        ensures
            r == self@.wants_to_send(),
    {
        self.egress.len() > 0 || (self.tcb.state.transmitting() && self.snd.sendable(
            self.tcb.snd_wnd,
        ))
    }

    /// Gives the next segment for the wire at the time `now`.
    pub fn pop_packet(&mut self, now: u64) -> (r: Result<Segment, PopPacketError>)
        requires
            old(self).wf(),
        ensures
            final(self)@ == old(self)@.popped(now).0,
            match r {
                Ok(seg) => old(self)@.popped(now).1 == Ok::<SegmentView, PopPacketError>(seg@),
                Err(e) => old(self)@.popped(now).1 == Err::<SegmentView, PopPacketError>(e),
            },
            old(self)@.wants_to_send() ==> r is Ok,
            final(self)@.tcb.state == old(self)@.tcb.state,
            final(self).wf(),
    {
        if self.egress.len() > 0 {
            let seg = self.egress.remove(0);
            assert(segment_views(self.egress@) =~= old(self)@.egress.drop_first());
            return Ok(seg);
        }
        if !(self.tcb.state.transmitting() && self.snd.sendable(self.tcb.snd_wnd)) {
            return Err(PopPacketError::NoPacket);
        }
        match self.snd.next_segment(self.tcb.snd_wnd, MSS, now) {
            Some(o) => {
                let last: bool = o.payload.len() > 0 && self.snd.end() == o.start
                    + o.payload.len() as u64;
                let flags = TcpFlags::control(o.fin, false, false, last, true);
                let header = self.header(now, flags, wire(self.tcb.iss, o.start));
                self.tcb.ack_owed = 0;
                self.tcb.ack_deadline = None;
                if self.tcb.rto_deadline.is_none() {
                    self.rearm(now);
                }
                Ok(Segment { header, payload: o.payload })
            },
            None => Err(PopPacketError::NoPacket),
        }
    }
}

impl Connection {
    /// Executable form of [`ConnectionView::timer_applies`].
    pub fn timer_applies(&self, t: &Timer) -> (r: bool)
        ensures
            r == self@.timer_applies(*t),
    {
        if !(t.local.ip == self.tcb.local.ip && t.local.port == self.tcb.local.port && t.remote.ip
            == self.tcb.remote.ip && t.remote.port == self.tcb.remote.port) {
            return false;
        }
        match t.kind {
            TimerKind::Retransmit => {
                (match self.tcb.rto_deadline {
                    Some(at) => at == t.at,
                    None => false,
                }) && (self.tcb.state.handshake() || self.tcb.state.synchronized())
            },
            TimerKind::DelayedAck => {
                (match self.tcb.ack_deadline {
                    Some(at) => at == t.at,
                    None => false,
                }) && self.tcb.state.synchronized()
            },
            TimerKind::TimeWait => {
                (match self.tcb.time_wait_deadline {
                    Some(at) => at == t.at,
                    None => false,
                }) && (match self.tcb.state {
                    StateTag::TimeWait => true,
                    _ => false,
                })
            },
            TimerKind::Reset => {
                match self.tcb.state {
                    StateTag::Rst => true,
                    _ => false,
                }
            },
        }
    }

    fn retransmit(&mut self, now: u64)
        requires
            old(self).wf(),
        ensures
            final(self)@ == old(self)@.retransmitted(now),
            final(self).wf(),
    {
        proof {
            reveal(ConnectionView::retransmitted);
        }
        if self.tcb.state.handshake() {
            if self.tcb.syn_attempts >= MAX_SYN_ATTEMPTS || time_since(now, self.tcb.opened_at)
                >= CONNECT_TIMEOUT {
                self.latch(TcpError::TimedOut);
                self.shut();
            } else {
                self.tcb.syn_attempts = self.tcb.syn_attempts + 1;
                self.tcb.rtt.back_off();
                let answer: bool = match self.tcb.state {
                    StateTag::SynReceived => true,
                    _ => false,
                };
                let header = self.syn_header(now, answer);
                self.emit(Segment { header, payload: Vec::new() });
                self.rearm(now);
            }
        } else if self.snd.in_flight() == 0 {
            self.tcb.rto_deadline = None;
        } else {
            let again = self.snd.on_timeout(now);
            self.tcb.rtt.back_off();
            match again {
                Some(o) => {
                    let flags = TcpFlags::control(o.fin, false, false, false, true);
                    let header = self.header(now, flags, wire(self.tcb.iss, o.start));
                    self.emit(Segment { header, payload: o.payload });
                },
                None => {},
            }
            self.rearm(now);
        }
    }

    /// Takes in that the timer `t` fired at the time `now`.
    pub fn on_timer(&mut self, now: u64, t: &Timer)
        requires
            old(self).wf(),
        ensures
            final(self)@ == old(self)@.timer_fired(now, *t),
            !old(self)@.timer_applies(*t) ==> final(self)@ == old(self)@,
            final(self).wf(),
    {
        if !self.timer_applies(t) {
            return ;
        }
        match t.kind {
            TimerKind::Retransmit => {
                self.retransmit(now);
            },
            TimerKind::DelayedAck => {
                self.send_ack(now);
            },
            TimerKind::TimeWait => {
                self.shut();
            },
            TimerKind::Reset => {
                self.shut();
            },
        }
    }

    /// Closes the connection from the application's side.
    pub fn close(&mut self) -> (r: Result<(), CloseError>)
        requires
            old(self).wf(),
        ensures
            final(self)@ == old(self)@.closed().0,
            r == old(self)@.closed().1,
            final(self).wf(),
    {
        match self.tcb.state {
            StateTag::SynSent => {
                self.shut();
                Ok(())
            },
            StateTag::SynReceived | StateTag::Established => {
                self.snd.queue_fin();
                self.tcb.state = StateTag::FinWaitOne;
                Ok(())
            },
            StateTag::CloseWait => {
                self.snd.queue_fin();
                self.tcb.state = StateTag::LastAck;
                Ok(())
            },
            _ => Err(CloseError::InvalidState),
        }
    }

    /// Closes the connection with a reset at the time `now`.
    pub fn rst_close(&mut self, now: u64) -> (r: Result<(), RstCloseError>)
        requires
            old(self).wf(),
        ensures
            final(self)@ == old(self)@.reset(now).0,
            r == old(self)@.reset(now).1,
            final(self).wf(),
    {
        let open: bool = self.tcb.state.synchronized() || (match self.tcb.state {
            StateTag::SynReceived => true,
            _ => false,
        });
        if !open {
            return Err(RstCloseError::InvalidState);
        }
        let header = self.header(
            now,
            TcpFlags::control(false, false, true, false, true),
            self.snd_nxt(),
        );
        self.emit(Segment { header, payload: Vec::new() });
        self.latch(TcpError::ResetSent);
        self.tcb.state = StateTag::Rst;
        self.tcb.rto_deadline = None;
        self.tcb.ack_deadline = None;
        self.tcb.time_wait_deadline = None;
        self.ask(TimerKind::Reset, now);
        Ok(())
    }

    /// Takes up to `len` bytes from the front of `reader` into the send buffer and gives
    /// the number taken.
    pub fn send(&mut self, reader: &[u8], len: usize) -> (r: Result<usize, SendError>)
        requires
            old(self).wf(),
        ensures
            r == old(self)@.send_result(reader@.len() as int, len as int),
            final(self)@ == old(self)@.sent(reader@, len as int),
            final(self).wf(),
    {
        if self.tcb.state.handshake() {
            Err(SendError::NotConnected)
        } else if self.tcb.state.writable() {
            self.snd.append(reader, len)
        } else if self.tcb.state.synchronized() {
            Err(SendError::StreamClosed)
        } else {
            Err(SendError::InvalidState)
        }
    }

    /// Moves up to `len` received bytes to the end of `writer`, at the time `now`, and
    /// gives their number.
    pub fn recv(&mut self, now: u64, writer: &mut Vec<u8>, len: usize) -> (r: Result<
        usize,
        RecvError,
    >)
        requires
            old(self).wf(),
        ensures
            r == old(self)@.recv_result(len as int),
            final(self)@ == old(self)@.received(now, len as int),
            final(writer)@ == (match r {
                Ok(n) => old(writer)@ + old(self)@.rcv.readable.take(n as int),
                Err(_) => old(writer)@,
            }),
            final(self).wf(),
    {
        if self.tcb.state.handshake() {
            return Err(RecvError::NotConnected);
        }
        if !self.tcb.state.synchronized() {
            return Err(RecvError::InvalidState);
        }
        if self.rcv.readable_len() == 0 {
            if self.rcv.fin_reached() {
                return Err(RecvError::StreamClosed);
            } else {
                return Err(RecvError::Empty);
            }
        }
        let window_before: usize = self.rcv.window();
        let n: usize = self.rcv.drain(writer, len);
        if window_before < MSS && self.rcv.window() >= MSS {
            self.send_ack(now);
        }
        Ok(n)
    }

    /// Gives the latched error and forgets it.
    pub fn clear_error(&mut self) -> (r: Option<TcpError>)
        ensures
            r == old(self)@.tcb.error,
            final(self)@ == (ConnectionView {
                tcb: Tcb { error: None, ..old(self)@.tcb },
                ..old(self)@
            }),
    {
        let e = self.tcb.error;
        self.tcb.error = None;
        e
    }

    /// Executable form of [`ConnectionView::readiness`].
    pub fn readiness(&self) -> (r: Readiness)
        requires
            self.wf(),
        ensures
            r == self@.readiness(),
    {
        let gone: bool = match self.tcb.state {
            StateTag::Rst | StateTag::Closed => true,
            _ => false,
        };
        Readiness {
            readable: self.rcv.readable_len() > 0 || self.rcv.peer_fin_delivered(),
            writable: self.tcb.state.writable() && self.snd.room() > 0,
            error: self.tcb.error.is_some(),
            recv_closed: self.rcv.peer_fin_delivered() || gone,
            send_closed: self.snd.fin_queued() || gone,
            ready_to_accept: false,
            established: self.tcb.was_established,
            closed: match self.tcb.state {
                StateTag::Closed => true,
                _ => false,
            },
        }
    }
}

} // verus!
