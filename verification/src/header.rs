//! The structured description of a TCP segment: addresses, control bits, sequence numbers and
//! options. Bytes on the wire are the host's business.

use vstd::prelude::*;
use crate::flags::TcpFlags;

verus! {

/// An IPv4 address with a port: one end of a connection.
#[derive(Clone, Copy, Debug, PartialEq, Eq, Hash, Structural)]
pub struct Endpoint {
    /// The address, as the number that its four octets spell in network order.
    pub ip: u32,
    pub port: u16,
}

#[derive(Clone, Copy, Debug, PartialEq, Eq, Hash, Structural)]
pub struct Ipv4Header {
    pub src: u32,
    pub dst: u32,
}

/// Up to four selective-acknowledgment blocks, each a half-open range of sequence numbers.
///
/// The places behind the last block hold `(0, 0)`, so that two lists with the same blocks
/// are the same value.
#[derive(Clone, Copy, Debug, PartialEq, Eq)]
pub struct SackBlocks {
    count: u8,
    first: (u32, u32),
    second: (u32, u32),
    third: (u32, u32),
    fourth: (u32, u32),
}

impl View for SackBlocks {
    type V = Seq<(u32, u32)>;

    closed spec fn view(&self) -> Seq<(u32, u32)> {
        seq![self.first, self.second, self.third, self.fourth].take(
            if self.count <= 4 {
                self.count as int
            } else {
                4
            },
        )
    }
}

/// The block of `s` at `i`, or `(0, 0)` behind the end.
pub open spec fn block_or_zero(s: Seq<(u32, u32)>, i: int) -> (u32, u32) {
    if i < s.len() {
        s[i]
    } else {
        (0u32, 0u32)
    }
}

impl SackBlocks {
    /// The list with the blocks of `s`, which are at most four.
    pub closed spec fn of(s: Seq<(u32, u32)>) -> SackBlocks {
        SackBlocks {
            count: s.len() as u8,
            first: block_or_zero(s, 0),
            second: block_or_zero(s, 1),
            third: block_or_zero(s, 2),
            fourth: block_or_zero(s, 3),
        }
    }

    /// A list holds at most four blocks.
    pub proof fn lemma_len(self)
        ensures
            self@.len() <= 4,
    {
    }

    /// The list made of at most four blocks holds these blocks.
    pub proof fn lemma_of(s: Seq<(u32, u32)>)
        requires
            s.len() <= 4,
        ensures
            Self::of(s)@ == s,
    {
        assert(Self::of(s)@ =~= s);
    }

    pub fn empty() -> (r: SackBlocks)
        ensures
            r == Self::of(Seq::empty()),
            r@ == Seq::<(u32, u32)>::empty(),
    {
        let r = SackBlocks { count: 0, first: (0, 0), second: (0, 0), third: (0, 0), fourth: (0, 0) };
        assert(r@ =~= Seq::<(u32, u32)>::empty());
        r
    }

    /// The list with the blocks of `v`, which are at most four.
    pub fn from_ranges(v: &Vec<(u32, u32)>) -> (r: SackBlocks)
        requires
            v@.len() <= 4,
        ensures
            r == Self::of(v@),
            r@ == v@,
    {
        let n: usize = v.len();
        let r = SackBlocks {
            count: n as u8,
            first: if 0 < n {
                v[0]
            } else {
                (0, 0)
            },
            second: if 1 < n {
                v[1]
            } else {
                (0, 0)
            },
            third: if 2 < n {
                v[2]
            } else {
                (0, 0)
            },
            fourth: if 3 < n {
                v[3]
            } else {
                (0, 0)
            },
        };
        assert(r@ =~= v@);
        r
    }

    pub fn len(&self) -> (n: usize)
        ensures
            n == self@.len(),
            n <= 4,
    {
        if self.count <= 4 {
            self.count as usize
        } else {
            4
        }
    }

    /// The block at `i`.
    pub fn get(&self, i: usize) -> (b: (u32, u32))
        requires
            i < self@.len(),
        ensures
            b == self@[i as int],
    {
        if i == 0 {
            self.first
        } else if i == 1 {
            self.second
        } else if i == 2 {
            self.third
        } else {
            self.fourth
        }
    }
}

/// The header of one TCP segment.
///
/// When `flags` lacks `ACK`, the `ack` field means nothing and is to be ignored.
/// In a segment with `SYN`, a present but empty `selective_acks` offers selective
/// acknowledgment.
#[derive(Clone, Copy, Debug, PartialEq, Eq)]
pub struct TcpHeader {
    pub ip: Ipv4Header,
    pub flags: TcpFlags,
    pub src_port: u16,
    pub dst_port: u16,
    pub seq: u32,
    pub ack: u32,
    pub window_size: u16,
    pub selective_acks: Option<SackBlocks>,
    pub window_scale: Option<u8>,
    pub timestamp: Option<u32>,
    pub timestamp_echo: Option<u32>,
}

impl TcpHeader {
    /// The sender's end.
    pub open spec fn source(&self) -> Endpoint {
        Endpoint { ip: self.ip.src, port: self.src_port }
    }

    /// The receiver's end.
    pub open spec fn destination(&self) -> Endpoint {
        Endpoint { ip: self.ip.dst, port: self.dst_port }
    }

    pub fn src(&self) -> (e: Endpoint)
        ensures
            e == self.source(),
    {
        Endpoint { ip: self.ip.src, port: self.src_port }
    }

    pub fn dst(&self) -> (e: Endpoint)
        ensures
            e == self.destination(),
    {
        Endpoint { ip: self.ip.dst, port: self.dst_port }
    }
}

} // verus!
