//! The bytes of a packet as a capture file shows them: an IPv4 header, a TCP or a UDP
//! header, and the payload. Checksums are left zero.

use vstd::prelude::*;
use crate::bytes_util::append_part;
use crate::flags::TcpFlags;
use crate::header::Endpoint;

verus! {

/// What a packet carries.
#[derive(Clone, Copy, Debug, PartialEq, Eq, Structural)]
pub enum Protocol {
    Tcp,
    Udp,
}

/// What a capture shows of a packet besides its payload.
#[derive(Clone, Copy, Debug, PartialEq, Eq)]
pub struct PacketInfo {
    pub protocol: Protocol,
    /// The size of all headers, as the packet counts them.
    pub header_len: u16,
    pub src: Endpoint,
    pub dst: Endpoint,
    /// The sequence number of a TCP packet.
    pub sequence: u32,
    /// The acknowledgment number of a TCP packet. It is shown only with the ACK flag.
    pub acknowledgment: u32,
    /// The flags of a TCP packet. FIN, SYN, RST and ACK are shown.
    pub flags: TcpFlags,
    /// The window of a TCP packet.
    pub window: u16,
    /// The size of the TCP header in bytes, which is shown in words of four bytes.
    pub tcp_header_size: u8,
}

/// The two bytes of `x`, the high one first.
pub open spec fn be16(x: u16) -> Seq<u8> {
    seq![(x / 256) as u8, (x % 256) as u8]
}

/// The four bytes of `x`, the highest first.
pub open spec fn be32(x: u32) -> Seq<u8> {
    seq![
        (x / 0x100_0000) as u8,
        ((x / 0x1_0000) % 256) as u8,
        ((x / 0x100) % 256) as u8,
        (x % 256) as u8,
    ]
}

/// The protocol number of the IPv4 header.
pub open spec fn protocol_number(p: Protocol) -> u8 {
    match p {
        Protocol::Tcp => 6,
        Protocol::Udp => 17,
    }
}

/// The twenty bytes of the IPv4 header: version 4 with a header of five words, no service
/// bits, the total length, no identification, the flag that forbids fragments, a time to
/// live of 64, the protocol, no checksum, and the two addresses.
pub open spec fn ip_bytes(
    protocol: Protocol,
    header_len: u16,
    payload_len: u16,
    src: u32,
    dst: u32,
) -> Seq<u8> {
    seq![0x45u8, 0x00u8] + be16((header_len + payload_len) as u16) + be16(0) + be16(0x4000)
        + seq![64u8, protocol_number(protocol)] + be16(0) + be32(src) + be32(dst)
}

/// The byte that shows the size of the TCP header: the number of its words of four bytes,
/// in the high four bits.
pub open spec fn data_offset(header_size: u8) -> u8 {
    (((header_size / 4) % 16) * 16) as u8
}

/// The byte that shows the flags of a TCP packet. Of the flags only FIN, SYN, RST and ACK
/// are shown.
pub open spec fn shown_flags(flags: TcpFlags) -> u8 {
    TcpFlags::control_bits(
        flags.has(TcpFlags::FIN),
        flags.has(TcpFlags::SYN),
        flags.has(TcpFlags::RST),
        false,
        flags.has(TcpFlags::ACK),
    )
}

/// The twenty bytes of the TCP header: the two ports, the sequence number, the
/// acknowledgment number or zero without the ACK flag, the size of the header, the flags,
/// the window, no checksum and no urgent pointer.
pub open spec fn tcp_bytes(p: PacketInfo) -> Seq<u8> {
    be16(p.src.port) + be16(p.dst.port) + be32(p.sequence) + be32(
        if p.flags.has(TcpFlags::ACK) {
            p.acknowledgment
        } else {
            0u32
        },
    ) + seq![data_offset(p.tcp_header_size), shown_flags(p.flags)] + be16(p.window) + be16(0)
        + be16(0)
}

/// The eight bytes of the UDP header: the two ports, the length of header and payload, and
/// no checksum.
pub open spec fn udp_bytes(src_port: u16, dst_port: u16, payload_len: u16) -> Seq<u8> {
    be16(src_port) + be16(dst_port) + be16((payload_len + 8) as u16) + be16(0)
}

/// All the bytes of a packet: the IPv4 header, the header of its protocol, and the payload.
pub open spec fn packet_bytes(p: PacketInfo, payload: Seq<u8>) -> Seq<u8> {
    ip_bytes(p.protocol, p.header_len, payload.len() as u16, p.src.ip, p.dst.ip) + (match p.protocol {
        Protocol::Tcp => tcp_bytes(p),
        Protocol::Udp => udp_bytes(p.src.port, p.dst.port, payload.len() as u16),
    }) + payload
}

/// Appends the two bytes of `x` to `out`, the high one first.
pub fn push_be16(out: &mut Vec<u8>, x: u16)
    ensures
        final(out)@ == old(out)@ + be16(x),
{
    out.push((x / 256) as u8);
    out.push((x % 256) as u8);
    assert(out@ =~= old(out)@ + be16(x));
}

/// Appends the four bytes of `x` to `out`, the highest first.
pub fn push_be32(out: &mut Vec<u8>, x: u32)
    ensures
        final(out)@ == old(out)@ + be32(x),
{
    out.push((x / 0x100_0000) as u8);
    out.push(((x / 0x1_0000) % 256) as u8);
    out.push(((x / 0x100) % 256) as u8);
    out.push((x % 256) as u8);
    assert(out@ =~= old(out)@ + be32(x));
}

/// Appends the IPv4 header of a packet to `out`. Headers and payload together are at most
/// 65535 bytes.
pub fn display_ip_bytes(
    out: &mut Vec<u8>,
    protocol: Protocol,
    header_len: u16,
    payload_len: u16,
    src: u32,
    dst: u32,
)
    requires
        header_len + payload_len <= u16::MAX,
    ensures
        final(out)@ == old(out)@ + ip_bytes(protocol, header_len, payload_len, src, dst),
{
    out.push(0x45);
    out.push(0x00);
    push_be16(out, header_len + payload_len);
    push_be16(out, 0);
    push_be16(out, 0x4000);
    out.push(64);
    out.push(
        match protocol {
            Protocol::Tcp => 6,
            Protocol::Udp => 17,
        },
    );
    push_be16(out, 0);
    push_be32(out, src);
    push_be32(out, dst);
    assert(out@ =~= old(out)@ + ip_bytes(protocol, header_len, payload_len, src, dst));
}

/// Appends the TCP header of the packet `p` to `out`.
pub fn display_tcp_bytes(out: &mut Vec<u8>, p: &PacketInfo)
    ensures
        final(out)@ == old(out)@ + tcp_bytes(*p),
{
    let acks: bool = p.flags.contains(TcpFlags::ACK);
    let shown = TcpFlags::control(
        p.flags.contains(TcpFlags::FIN),
        p.flags.contains(TcpFlags::SYN),
        p.flags.contains(TcpFlags::RST),
        false,
        acks,
    );
    push_be16(out, p.src.port);
    push_be16(out, p.dst.port);
    push_be32(out, p.sequence);
    push_be32(
        out,
        if acks {
            p.acknowledgment
        } else {
            0
        },
    );
    out.push(((p.tcp_header_size / 4) % 16) * 16);
    out.push(shown.bits());
    push_be16(out, p.window);
    push_be16(out, 0);
    push_be16(out, 0);
    assert(out@ =~= old(out)@ + tcp_bytes(*p));
}

/// Appends the UDP header of a packet with `payload_len` bytes to `out`. Header and payload
/// together are at most 65535 bytes.
pub fn display_udp_bytes(out: &mut Vec<u8>, src_port: u16, dst_port: u16, payload_len: u16)
    requires
        payload_len + 8 <= u16::MAX,
    ensures
        final(out)@ == old(out)@ + udp_bytes(src_port, dst_port, payload_len),
{
    push_be16(out, src_port);
    push_be16(out, dst_port);
    push_be16(out, payload_len + 8);
    push_be16(out, 0);
    assert(out@ =~= old(out)@ + udp_bytes(src_port, dst_port, payload_len));
}

/// Appends all the bytes of the packet `p` with the payload `payload` to `out`.
pub fn display_bytes(out: &mut Vec<u8>, p: &PacketInfo, payload: &[u8])
    requires
        p.header_len + payload@.len() <= u16::MAX,
        p.protocol == Protocol::Udp ==> payload@.len() + 8 <= u16::MAX,
    ensures
        final(out)@ == old(out)@ + packet_bytes(*p, payload@),
{
    let payload_len: u16 = payload.len() as u16;
    display_ip_bytes(out, p.protocol, p.header_len, payload_len, p.src.ip, p.dst.ip);
    match p.protocol {
        Protocol::Tcp => {
            display_tcp_bytes(out, p);
        },
        Protocol::Udp => {
            display_udp_bytes(out, p.src.port, p.dst.port, payload_len);
        },
    }
    if payload.len() > 0 {
        append_part(out, payload, 0, payload.len());
    }
    assert(payload@.subrange(0, payload@.len() as int) =~= payload@);
    assert(out@ =~= old(out)@ + packet_bytes(*p, payload@));
}

} // verus!
