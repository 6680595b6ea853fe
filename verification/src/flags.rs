//! The two bit sets of the engine: the control bits of a segment and the readiness bits that
//! `poll` reports.

use vstd::prelude::*;

verus! {

/// The control bits of a TCP segment.
#[derive(Clone, Copy, Debug, PartialEq, Eq, Hash, Structural)]
pub struct TcpFlags {
    pub bits: u8,
}

impl TcpFlags {
    pub const FIN: u8 = 0x01;

    pub const SYN: u8 = 0x02;

    pub const RST: u8 = 0x04;

    pub const PSH: u8 = 0x08;

    pub const ACK: u8 = 0x10;

    pub const URG: u8 = 0x20;

    pub const ECE: u8 = 0x40;

    pub const CWR: u8 = 0x80;

    /// Every bit of `mask` is set.
    pub open spec fn has(self, mask: u8) -> bool {
        self.bits & mask == mask
    }

    /// The bits of a segment with the given control flags and no others.
    pub open spec fn control_bits(fin: bool, syn: bool, rst: bool, psh: bool, ack: bool) -> u8 {
        (if fin { 0x01u8 } else { 0u8 })
            | (if syn { 0x02u8 } else { 0u8 })
            | (if rst { 0x04u8 } else { 0u8 })
            | (if psh { 0x08u8 } else { 0u8 })
            | (if ack { 0x10u8 } else { 0u8 })
    }

    /// The flag set made by [`TcpFlags::control`].
    pub open spec fn of_control(fin: bool, syn: bool, rst: bool, psh: bool, ack: bool) -> TcpFlags {
        TcpFlags { bits: Self::control_bits(fin, syn, rst, psh, ack) }
    }

    pub fn empty() -> (r: TcpFlags)
        ensures
            r.bits == 0,
    {
        TcpFlags { bits: 0 }
    }

    pub fn from_bits(bits: u8) -> (r: TcpFlags)
        ensures
            r.bits == bits,
    {
        TcpFlags { bits }
    }

    pub fn bits(&self) -> (r: u8)
        ensures
            r == self.bits,
    {
        self.bits
    }

    pub fn contains(&self, mask: u8) -> (r: bool)
        ensures
            r == self.has(mask),
    {
        self.bits & mask == mask
    }

    /// The set with the bits of `mask` added.
    pub fn union(self, mask: u8) -> (r: TcpFlags)
        ensures
            r.bits == self.bits | mask,
    {
        TcpFlags { bits: self.bits | mask }
    }

    /// The set with exactly the named control flags.
    pub fn control(fin: bool, syn: bool, rst: bool, psh: bool, ack: bool) -> (r: TcpFlags)
        ensures
            r == Self::of_control(fin, syn, rst, psh, ack),
            r.has(Self::FIN) == fin,
            r.has(Self::SYN) == syn,
            r.has(Self::RST) == rst,
            r.has(Self::PSH) == psh,
            r.has(Self::ACK) == ack,
    {
        let f: u8 = if fin { 0x01 } else { 0 };
        let s: u8 = if syn { 0x02 } else { 0 };
        let r: u8 = if rst { 0x04 } else { 0 };
        let p: u8 = if psh { 0x08 } else { 0 };
        let a: u8 = if ack { 0x10 } else { 0 };
        proof {
            Self::lemma_control(fin, syn, rst, psh, ack);
        }
        TcpFlags { bits: f | s | r | p | a }
    }

    /// A flag set made from five control flags has exactly those five.
    pub proof fn lemma_control(fin: bool, syn: bool, rst: bool, psh: bool, ack: bool)
        ensures
            Self::of_control(fin, syn, rst, psh, ack).has(Self::FIN) == fin,
            Self::of_control(fin, syn, rst, psh, ack).has(Self::SYN) == syn,
            Self::of_control(fin, syn, rst, psh, ack).has(Self::RST) == rst,
            Self::of_control(fin, syn, rst, psh, ack).has(Self::PSH) == psh,
            Self::of_control(fin, syn, rst, psh, ack).has(Self::ACK) == ack,
    {
        let f: u8 = if fin { 0x01 } else { 0 };
        let s: u8 = if syn { 0x02 } else { 0 };
        let r: u8 = if rst { 0x04 } else { 0 };
        let p: u8 = if psh { 0x08 } else { 0 };
        let a: u8 = if ack { 0x10 } else { 0 };
        assert((f == 0 || f == 0x01) && (s == 0 || s == 0x02) && (r == 0 || r == 0x04) && (p == 0
            || p == 0x08) && (a == 0 || a == 0x10) ==> (((f | s | r | p | a) & 0x01 == 0x01) == (f
            == 0x01)) && (((f | s | r | p | a) & 0x02 == 0x02) == (s == 0x02)) && (((f | s | r | p
            | a) & 0x04 == 0x04) == (r == 0x04)) && (((f | s | r | p | a) & 0x08 == 0x08) == (p
            == 0x08)) && (((f | s | r | p | a) & 0x10 == 0x10) == (a == 0x10))) by (bit_vector);
    }
}

/// What `poll` reports: which operations can make progress, and how far the connection has
/// come.
#[derive(Clone, Copy, Debug, PartialEq, Eq, Hash, Structural)]
pub struct PollState {
    pub bits: u32,
}

/// The eight conditions that a [`PollState`] records, one `bool` each.
#[derive(Clone, Copy, Debug, PartialEq, Eq, Structural)]
pub struct Readiness {
    /// Data can be read, or the end of the peer's stream can be seen.
    pub readable: bool,
    /// Data can be written.
    pub writable: bool,
    /// An error is latched.
    pub error: bool,
    /// No further bytes will arrive.
    pub recv_closed: bool,
    /// No further bytes can be sent.
    pub send_closed: bool,
    /// A listener holds a connection that can be accepted.
    pub ready_to_accept: bool,
    /// The connection is or has been established.
    pub established: bool,
    /// The terminal state has been reached.
    pub closed: bool,
}

impl PollState {
    pub const READABLE: u32 = 0x01;

    pub const WRITABLE: u32 = 0x02;

    pub const ERROR: u32 = 0x04;

    pub const RECV_CLOSED: u32 = 0x08;

    pub const SEND_CLOSED: u32 = 0x10;

    pub const READY_TO_ACCEPT: u32 = 0x20;

    pub const ESTABLISHED: u32 = 0x40;

    pub const CLOSED: u32 = 0x80;

    /// Every bit of `mask` is set.
    pub open spec fn has(self, mask: u32) -> bool {
        self.bits & mask == mask
    }

    /// The bits that stand for `r`.
    pub open spec fn bits_of(r: Readiness) -> u32 {
        (if r.readable { 0x01u32 } else { 0u32 })
            | (if r.writable { 0x02u32 } else { 0u32 })
            | (if r.error { 0x04u32 } else { 0u32 })
            | (if r.recv_closed { 0x08u32 } else { 0u32 })
            | (if r.send_closed { 0x10u32 } else { 0u32 })
            | (if r.ready_to_accept { 0x20u32 } else { 0u32 })
            | (if r.established { 0x40u32 } else { 0u32 })
            | (if r.closed { 0x80u32 } else { 0u32 })
    }

    /// The poll state that stands for `r`.
    pub open spec fn of(r: Readiness) -> PollState {
        PollState { bits: Self::bits_of(r) }
    }

    pub fn empty() -> (r: PollState)
        ensures
            r.bits == 0,
    {
        PollState { bits: 0 }
    }

    pub fn from_bits(bits: u32) -> (r: PollState)
        ensures
            r.bits == bits,
    {
        PollState { bits }
    }

    pub fn bits(&self) -> (r: u32)
        ensures
            r == self.bits,
    {
        self.bits
    }

    pub fn contains(&self, mask: u32) -> (r: bool)
        ensures
            r == self.has(mask),
    {
        self.bits & mask == mask
    }

    pub fn is_empty(&self) -> (r: bool)
        ensures
            r == (self.bits == 0),
    {
        self.bits == 0
    }

    /// The poll state with one bit for each condition of `r` that holds.
    pub fn from_readiness(r: Readiness) -> (p: PollState)
        ensures
            p == Self::of(r),
            p.has(Self::READABLE) == r.readable,
            p.has(Self::WRITABLE) == r.writable,
            p.has(Self::ERROR) == r.error,
            p.has(Self::RECV_CLOSED) == r.recv_closed,
            p.has(Self::SEND_CLOSED) == r.send_closed,
            p.has(Self::READY_TO_ACCEPT) == r.ready_to_accept,
            p.has(Self::ESTABLISHED) == r.established,
            p.has(Self::CLOSED) == r.closed,
    {
        let b0: u32 = if r.readable { 0x01 } else { 0 };
        let b1: u32 = if r.writable { 0x02 } else { 0 };
        let b2: u32 = if r.error { 0x04 } else { 0 };
        let b3: u32 = if r.recv_closed { 0x08 } else { 0 };
        let b4: u32 = if r.send_closed { 0x10 } else { 0 };
        let b5: u32 = if r.ready_to_accept { 0x20 } else { 0 };
        let b6: u32 = if r.established { 0x40 } else { 0 };
        let b7: u32 = if r.closed { 0x80 } else { 0 };
        proof {
            Self::lemma_of(r);
        }
        PollState { bits: b0 | b1 | b2 | b3 | b4 | b5 | b6 | b7 }
    }

    /// The poll state of a readiness record has a bit exactly where the record has `true`.
    pub proof fn lemma_of(r: Readiness)
        ensures
            Self::of(r).has(Self::READABLE) == r.readable,
            Self::of(r).has(Self::WRITABLE) == r.writable,
            Self::of(r).has(Self::ERROR) == r.error,
            Self::of(r).has(Self::RECV_CLOSED) == r.recv_closed,
            Self::of(r).has(Self::SEND_CLOSED) == r.send_closed,
            Self::of(r).has(Self::READY_TO_ACCEPT) == r.ready_to_accept,
            Self::of(r).has(Self::ESTABLISHED) == r.established,
            Self::of(r).has(Self::CLOSED) == r.closed,
    {
        let b0: u32 = if r.readable { 0x01 } else { 0 };
        let b1: u32 = if r.writable { 0x02 } else { 0 };
        let b2: u32 = if r.error { 0x04 } else { 0 };
        let b3: u32 = if r.recv_closed { 0x08 } else { 0 };
        let b4: u32 = if r.send_closed { 0x10 } else { 0 };
        let b5: u32 = if r.ready_to_accept { 0x20 } else { 0 };
        let b6: u32 = if r.established { 0x40 } else { 0 };
        let b7: u32 = if r.closed { 0x80 } else { 0 };
        let all = b0 | b1 | b2 | b3 | b4 | b5 | b6 | b7;
        assert((b0 == 0 || b0 == 0x01) && (b1 == 0 || b1 == 0x02) && (b2 == 0 || b2 == 0x04) && (b3
            == 0 || b3 == 0x08) && (b4 == 0 || b4 == 0x10) && (b5 == 0 || b5 == 0x20) && (b6 == 0
            || b6 == 0x40) && (b7 == 0 || b7 == 0x80) && all == b0 | b1 | b2 | b3 | b4 | b5 | b6
            | b7 ==> ((all & 0x01 == 0x01) == (b0 == 0x01)) && ((all & 0x02 == 0x02) == (b1
            == 0x02)) && ((all & 0x04 == 0x04) == (b2 == 0x04)) && ((all & 0x08 == 0x08) == (b3
            == 0x08)) && ((all & 0x10 == 0x10) == (b4 == 0x10)) && ((all & 0x20 == 0x20) == (b5
            == 0x20)) && ((all & 0x40 == 0x40) == (b6 == 0x40)) && ((all & 0x80 == 0x80) == (b7
            == 0x80))) by (bit_vector);
    }
}

} // verus!
