use tcp::flags::{PollState, Readiness, TcpFlags};
use tcp::header::{Endpoint, Ipv4Header, SackBlocks, TcpHeader};
use tcp::packet::{display_bytes, display_ip_bytes, display_tcp_bytes, display_udp_bytes, PacketInfo, Protocol};
use tcp::pid::Pid;
use tcp::recv_buffer::RecvBuffer;
use tcp::rtt::RttEstimator;
use tcp::send_buffer::SendBuffer;
use tcp::seq::{at_or_before, before, distance, in_window, wire};
use tcp::SendError;

#[test]
fn sequence_distance_is_signed_and_wraps() {
    assert_eq!(distance(5, 3), 2);
    assert_eq!(distance(3, 5), -2);
    assert_eq!(distance(0, u32::MAX), 1);
    assert_eq!(distance(u32::MAX, 0), -1);
    assert_eq!(distance(0x8000_0000, 0), -0x8000_0000);
    assert_eq!(distance(0x7FFF_FFFF, 0), 0x7FFF_FFFF);
    assert_eq!(distance(7, 7), 0);
}

#[test]
fn sequence_comparison_is_modular() {
    assert!(before(u32::MAX, 0));
    assert!(!before(0, u32::MAX));
    assert!(!before(9, 9));
    assert!(at_or_before(9, 9));
    assert!(at_or_before(u32::MAX - 1, 3));
    assert!(in_window(2, u32::MAX, 10));
    assert!(in_window(u32::MAX, u32::MAX, 1));
    assert!(!in_window(u32::MAX, u32::MAX, 0));
    assert!(!in_window(9, u32::MAX, 10));
    assert!(!in_window(u32::MAX - 1, u32::MAX, 10));
}

#[test]
fn wire_number_of_an_offset_wraps() {
    assert_eq!(wire(100, 0), 100);
    assert_eq!(wire(100, 23), 123);
    assert_eq!(wire(u32::MAX, 1), 0);
    assert_eq!(wire(7, 0x1_0000_0000), 7);
    assert_eq!(wire(7, 0x3_0000_0005), 12);
}

#[test]
fn control_flags_have_their_wire_bits() {
    assert_eq!(TcpFlags::FIN, 0x01);
    assert_eq!(TcpFlags::SYN, 0x02);
    assert_eq!(TcpFlags::RST, 0x04);
    assert_eq!(TcpFlags::PSH, 0x08);
    assert_eq!(TcpFlags::ACK, 0x10);
    assert_eq!(TcpFlags::URG, 0x20);
    assert_eq!(TcpFlags::ECE, 0x40);
    assert_eq!(TcpFlags::CWR, 0x80);
    let syn_ack = TcpFlags::control(false, true, false, false, true);
    assert_eq!(syn_ack.bits(), 0x12);
    assert!(syn_ack.contains(TcpFlags::SYN));
    assert!(syn_ack.contains(TcpFlags::ACK));
    assert!(syn_ack.contains(TcpFlags::SYN | TcpFlags::ACK));
    assert!(!syn_ack.contains(TcpFlags::FIN));
    assert!(!syn_ack.contains(TcpFlags::SYN | TcpFlags::FIN));
    assert_eq!(TcpFlags::empty().union(TcpFlags::RST).bits(), 0x04);
    assert_eq!(TcpFlags::control(true, true, true, true, true).bits(), 0x1F);
    assert_eq!(TcpFlags::from_bits(0xFF).bits(), 0xFF);
}

#[test]
fn poll_state_has_one_bit_for_each_condition() {
    let none = Readiness {
        readable: false,
        writable: false,
        error: false,
        recv_closed: false,
        send_closed: false,
        ready_to_accept: false,
        established: false,
        closed: false,
    };
    assert!(PollState::from_readiness(none).is_empty());
    assert_eq!(PollState::from_readiness(Readiness { readable: true, ..none }).bits(), 1 << 0);
    assert_eq!(PollState::from_readiness(Readiness { writable: true, ..none }).bits(), 1 << 1);
    assert_eq!(PollState::from_readiness(Readiness { error: true, ..none }).bits(), 1 << 2);
    assert_eq!(PollState::from_readiness(Readiness { recv_closed: true, ..none }).bits(), 1 << 3);
    assert_eq!(PollState::from_readiness(Readiness { send_closed: true, ..none }).bits(), 1 << 4);
    assert_eq!(PollState::from_readiness(Readiness { ready_to_accept: true, ..none }).bits(), 1 << 5);
    assert_eq!(PollState::from_readiness(Readiness { established: true, ..none }).bits(), 1 << 6);
    assert_eq!(PollState::from_readiness(Readiness { closed: true, ..none }).bits(), 1 << 7);
    let some = PollState::from_readiness(Readiness { readable: true, closed: true, ..none });
    assert_eq!(some.bits(), 0x81);
    assert!(some.contains(PollState::READABLE));
    assert!(some.contains(PollState::CLOSED));
    assert!(!some.contains(PollState::WRITABLE));
    assert_eq!(PollState::READABLE, 0x01);
    assert_eq!(PollState::WRITABLE, 0x02);
    assert_eq!(PollState::ERROR, 0x04);
    assert_eq!(PollState::RECV_CLOSED, 0x08);
    assert_eq!(PollState::SEND_CLOSED, 0x10);
    assert_eq!(PollState::READY_TO_ACCEPT, 0x20);
    assert_eq!(PollState::ESTABLISHED, 0x40);
    assert_eq!(PollState::CLOSED, 0x80);
}

#[test]
fn sack_blocks_hold_up_to_four_ranges() {
    let empty = SackBlocks::empty();
    assert_eq!(empty.len(), 0);
    let ranges = vec![(1, 2), (5, 9), (20, 30)];
    let blocks = SackBlocks::from_ranges(&ranges);
    assert_eq!(blocks.len(), 3);
    assert_eq!(blocks.get(0), (1, 2));
    assert_eq!(blocks.get(1), (5, 9));
    assert_eq!(blocks.get(2), (20, 30));
    assert_eq!(blocks, SackBlocks::from_ranges(&ranges));
    assert_ne!(blocks, empty);
    assert_eq!(SackBlocks::from_ranges(&Vec::new()), empty);
    let full = SackBlocks::from_ranges(&vec![(1, 2), (3, 4), (5, 6), (7, 8)]);
    assert_eq!(full.len(), 4);
    assert_eq!(full.get(3), (7, 8));
}

#[test]
fn header_reports_its_two_ends() {
    let header = TcpHeader {
        ip: Ipv4Header { src: 0x0A00_0001, dst: 0x7F00_0001 },
        flags: TcpFlags::empty(),
        src_port: 11,
        dst_port: 22,
        seq: 0,
        ack: 0,
        window_size: 0,
        selective_acks: None,
        window_scale: None,
        timestamp: None,
        timestamp_echo: None,
    };
    assert_eq!(header.src(), Endpoint { ip: 0x0A00_0001, port: 11 });
    assert_eq!(header.dst(), Endpoint { ip: 0x7F00_0001, port: 22 });
}

#[test]
fn round_trip_estimate_follows_the_formulas() {
    let mut rtt = RttEstimator::new();
    assert_eq!(rtt.rto, 1000);
    assert!(!rtt.sampled);
    // first sample: srtt = R, rttvar = R / 2, rto = srtt + 4 * rttvar
    rtt.sample(2000);
    assert_eq!((rtt.srtt, rtt.rttvar, rtt.rto), (2000, 1000, 6000));
    // later sample: rttvar = 3/4 rttvar + 1/4 |srtt - R|, srtt = 7/8 srtt + 1/8 R
    rtt.sample(1000);
    assert_eq!((rtt.srtt, rtt.rttvar, rtt.rto), (1875, 1000, 5875));
    rtt.sample(1875);
    assert_eq!((rtt.srtt, rtt.rttvar, rtt.rto), (1875, 750, 4875));
    // the timeout is at least one second
    let mut fast = RttEstimator::new();
    fast.sample(10);
    assert_eq!((fast.srtt, fast.rttvar, fast.rto), (10, 5, 1000));
    fast.sample(0);
    assert_eq!((fast.srtt, fast.rttvar, fast.rto), (8, 6, 1000));
    // with no variance the clock's granularity stands in for it
    let mut still = RttEstimator::new();
    still.sample(0);
    assert_eq!((still.srtt, still.rttvar, still.rto), (0, 0, 1000));
    // and at most one minute
    let mut slow = RttEstimator::new();
    slow.sample(100_000);
    assert_eq!((slow.srtt, slow.rttvar, slow.rto), (60_000, 30_000, 60_000));
}

#[test]
fn timeout_doubles_up_to_one_minute() {
    let mut rtt = RttEstimator::new();
    let mut seen = Vec::new();
    for _ in 0..8 {
        rtt.back_off();
        seen.push(rtt.rto);
    }
    assert_eq!(seen, vec![2000, 4000, 8000, 16000, 32000, 60000, 60000, 60000]);
}

#[test]
fn pid_is_positive() {
    assert!(Pid::from_raw(-1).is_none());
    assert!(Pid::from_raw(i32::MIN).is_none());
    let pid = Pid::from_raw(42).unwrap();
    assert_eq!(pid.as_raw_nonzero(), 42);
    assert_eq!(Pid::as_raw(Some(pid)), 42);
    assert_eq!(Pid::as_raw(None), 0);
    assert_eq!(Pid::as_raw(Pid::from_raw(i32::MAX)), i32::MAX);
    assert_eq!(Pid::from_raw(1), Pid::from_raw(1));
}

#[test]
fn send_buffer_takes_what_fits() {
    let mut buffer = SendBuffer::new(1, 10);
    assert_eq!(buffer.room(), 10);
    assert_eq!(buffer.append(b"hello world!!", 100), Ok(10));
    assert_eq!(buffer.buffered(), 10);
    assert_eq!(buffer.room(), 0);
    assert_eq!(buffer.append(b"x", 1), Err(SendError::Full));
    let mut short = SendBuffer::new(1, 10);
    assert_eq!(short.append(b"hello", 3), Ok(3));
    assert_eq!(short.append(b"hello", 0), Ok(0));
    assert_eq!(short.append(b"", 5), Ok(0));
    assert_eq!(short.buffered(), 3);
    short.queue_fin();
    assert_eq!(short.append(b"x", 1), Err(SendError::StreamClosed));
    assert!(short.only_fin_left() == false);
}

#[test]
fn send_buffer_segments_within_window_and_mss() {
    let mut buffer = SendBuffer::new(1, 10);
    buffer.append(b"hello world", 10).unwrap();
    assert!(buffer.sendable(4));
    let first = buffer.next_segment(4, 3, 5).unwrap();
    assert_eq!((first.start, &first.payload[..], first.fin), (1, &b"hel"[..], false));
    let second = buffer.next_segment(4, 3, 6).unwrap();
    assert_eq!((second.start, &second.payload[..], second.fin), (4, &b"l"[..], false));
    assert!(!buffer.sendable(4));
    assert!(buffer.next_segment(4, 3, 7).is_none());
    assert!(buffer.next_segment(10, 0, 7).is_none());
    assert_eq!(buffer.in_flight(), 4);
    assert_eq!((buffer.una(), buffer.nxt(), buffer.end()), (1, 5, 11));

    // an acknowledgment in the middle of a segment completes no round trip
    assert_eq!(buffer.on_cumulative_ack(3), None);
    assert_eq!((buffer.una(), buffer.buffered()), (3, 8));
    // one that covers both completes the round trip of the older one
    assert_eq!(buffer.on_cumulative_ack(5), Some(5));
    assert_eq!((buffer.una(), buffer.nxt(), buffer.buffered()), (5, 5, 6));
    // old and impossible acknowledgments change nothing
    assert_eq!(buffer.on_cumulative_ack(5), None);
    assert_eq!(buffer.on_cumulative_ack(2), None);
    assert_eq!(buffer.on_cumulative_ack(6), None);
    assert_eq!((buffer.una(), buffer.nxt(), buffer.buffered()), (5, 5, 6));
    let third = buffer.next_segment(100, 100, 9).unwrap();
    assert_eq!((third.start, &third.payload[..]), (5, &b"o worl"[..]));
}

#[test]
fn send_buffer_retransmits_the_oldest_unreported_segment() {
    let mut buffer = SendBuffer::new(1, 100);
    buffer.append(b"abcdefghi", 9).unwrap();
    for now in 0..3 {
        buffer.next_segment(100, 3, now).unwrap();
    }
    assert!(buffer.next_segment(100, 3, 3).is_none());

    buffer.on_sack(4, 7);
    let again = buffer.on_timeout(50).unwrap();
    assert_eq!((again.start, &again.payload[..], again.fin), (1, &b"abc"[..], false));
    buffer.on_sack(1, 4);
    let again = buffer.on_timeout(60).unwrap();
    assert_eq!((again.start, &again.payload[..]), (7, &b"ghi"[..]));
    // a report that does not cover a whole segment marks nothing
    buffer.on_sack(7, 9);
    buffer.on_sack(8, 11);
    assert_eq!(buffer.on_timeout(70).unwrap().start, 7);
    buffer.on_sack(7, 10);
    assert!(buffer.on_timeout(80).is_none());
    // nothing that was in flight at a timeout measures a round trip
    assert_eq!(buffer.on_cumulative_ack(10), None);
    assert_eq!(buffer.in_flight(), 0);
}

#[test]
fn send_buffer_sends_the_fin_behind_the_last_byte() {
    let mut buffer = SendBuffer::new(1, 100);
    buffer.append(b"ab", 2).unwrap();
    buffer.queue_fin();
    assert!(buffer.fin_queued());
    assert!(!buffer.has_fin_sent());
    // the window has room for the bytes but not for the FIN
    let data = buffer.next_segment(2, 5, 0).unwrap();
    assert_eq!((&data.payload[..], data.fin), (&b"ab"[..], false));
    assert!(buffer.next_segment(2, 5, 0).is_none());
    let fin = buffer.next_segment(3, 5, 0).unwrap();
    assert_eq!((fin.start, fin.payload.len(), fin.fin), (3, 0, true));
    assert!(buffer.has_fin_sent());
    assert!(!buffer.fin_acked());
    assert_eq!(buffer.on_cumulative_ack(3), Some(0));
    assert!(buffer.only_fin_left());
    assert!(!buffer.fin_acked());
    assert_eq!(buffer.on_cumulative_ack(4), Some(0));
    assert!(buffer.fin_acked());
    assert_eq!(buffer.in_flight(), 0);

    let mut other = SendBuffer::new(1, 100);
    other.append(b"ab", 2).unwrap();
    other.queue_fin();
    let both = other.next_segment(10, 5, 0).unwrap();
    assert_eq!((both.start, &both.payload[..], both.fin), (1, &b"ab"[..], true));
    assert_eq!(other.nxt(), 4);
}

#[test]
fn send_buffer_takes_back_what_a_shrunken_window_does_not_cover() {
    let mut buffer = SendBuffer::new(1, 100);
    buffer.append(b"abcdefghi", 9).unwrap();
    for now in 0..3 {
        buffer.next_segment(9, 3, now).unwrap();
    }
    assert_eq!(buffer.nxt(), 10);
    buffer.shrink_to_window(5);
    assert_eq!((buffer.una(), buffer.nxt()), (1, 4));
    let again = buffer.next_segment(9, 3, 9).unwrap();
    assert_eq!((again.start, &again.payload[..]), (4, &b"def"[..]));
    buffer.shrink_to_window(2);
    assert_eq!((buffer.una(), buffer.nxt()), (1, 1));
    buffer.shrink_to_window(0);
    assert_eq!((buffer.una(), buffer.nxt()), (1, 1));
}

#[test]
fn receive_buffer_puts_segments_in_order() {
    let mut buffer = RecvBuffer::new(1, 100);
    assert_eq!(buffer.window(), 100);
    buffer.insert(5, &[5, 6, 7, 8, 9]);
    assert_eq!(buffer.readable_len(), 0);
    assert_eq!(buffer.next(), 1);
    assert!(buffer.has_gap());
    assert_eq!(buffer.advertise_sack(), vec![(6, 11)]);

    buffer.insert(0, &[0, 1, 2, 3, 4]);
    assert_eq!(buffer.readable_len(), 10);
    assert_eq!(buffer.next(), 11);
    assert_eq!(buffer.received(), 10);
    assert!(!buffer.has_gap());
    assert_eq!(buffer.advertise_sack(), vec![]);
    assert_eq!(buffer.window(), 90);

    // what overlaps with what has arrived is cut off
    buffer.insert(-3, &[70, 80, 90, 10, 11, 12]);
    assert_eq!(buffer.next(), 14);
    // a duplicate brings nothing
    buffer.insert(-6, &[1, 2, 3]);
    buffer.insert(-13, &[1, 2, 3]);
    buffer.insert(0, &[]);
    assert_eq!(buffer.next(), 14);
    // what lies behind the window is dropped, and what reaches behind it is cut off
    buffer.insert(87, &[1]);
    assert!(!buffer.has_gap());
    buffer.insert(85, &[1, 2, 3, 4]);
    assert_eq!(buffer.advertise_sack(), vec![(99, 101)]);

    let mut out = vec![255];
    assert_eq!(buffer.drain(&mut out, 4), 4);
    assert_eq!(out, vec![255, 0, 1, 2, 3]);
    assert_eq!(buffer.drain(&mut out, 100), 9);
    assert_eq!(out, vec![255, 0, 1, 2, 3, 4, 5, 6, 7, 8, 9, 10, 11, 12]);
    assert_eq!(buffer.drain(&mut out, 100), 0);
    assert_eq!(buffer.window(), 100);
}

#[test]
fn receive_buffer_keeps_the_bytes_that_came_first() {
    let mut buffer = RecvBuffer::new(1, 100);
    buffer.insert(2, &[1, 1]);
    buffer.insert(1, &[2, 2, 2, 2]);
    buffer.insert(0, &[3, 3, 3, 3, 3, 3]);
    let mut out = Vec::new();
    buffer.drain(&mut out, 100);
    assert_eq!(out, vec![3, 2, 1, 1, 2, 3]);
}

#[test]
fn receive_buffer_reports_the_block_that_grew_last_first() {
    let mut buffer = RecvBuffer::new(1, 1000);
    buffer.insert(19, &[0; 5]);
    buffer.insert(39, &[0; 5]);
    buffer.insert(29, &[0; 5]);
    assert_eq!(buffer.advertise_sack(), vec![(30, 35), (40, 45), (20, 25)]);
    buffer.insert(24, &[0; 2]);
    assert_eq!(buffer.advertise_sack(), vec![(20, 27), (30, 35), (40, 45)]);
    // a segment that closes the gap between two blocks makes one of them
    buffer.insert(34, &[0; 5]);
    assert_eq!(buffer.advertise_sack(), vec![(30, 45), (20, 27)]);
    buffer.insert(49, &[0; 1]);
    buffer.insert(59, &[0; 1]);
    buffer.insert(69, &[0; 1]);
    // only four are reported
    assert_eq!(buffer.advertise_sack(), vec![(70, 71), (60, 61), (50, 51), (30, 45)]);
    buffer.insert(0, &[0; 19]);
    assert_eq!(buffer.next(), 27);
    assert_eq!(buffer.advertise_sack(), vec![(70, 71), (60, 61), (50, 51), (30, 45)]);
}

#[test]
fn receive_buffer_delivers_the_fin_behind_the_last_byte() {
    let mut buffer = RecvBuffer::new(1, 100);
    buffer.insert(0, &[1, 2, 3]);
    buffer.peer_fin_at(2);
    assert!(!buffer.fin_reached());
    // nothing is taken behind the FIN
    buffer.insert(0, &[4, 5, 6, 7]);
    assert!(buffer.fin_reached());
    assert_eq!(buffer.next(), 7);
    assert_eq!(buffer.received(), 5);
    assert!(!buffer.peer_fin_delivered());
    let mut out = Vec::new();
    assert_eq!(buffer.drain(&mut out, 100), 5);
    assert_eq!(out, vec![1, 2, 3, 4, 5]);
    assert!(buffer.peer_fin_delivered());
    buffer.insert(0, &[9]);
    assert_eq!(buffer.readable_len(), 0);

    let mut early = RecvBuffer::new(1, 100);
    early.peer_fin_at(0);
    assert!(early.fin_reached());
    assert!(early.peer_fin_delivered());
    assert_eq!(early.next(), 2);

    // a FIN in front of bytes that have arrived does not count
    let mut odd = RecvBuffer::new(1, 100);
    odd.insert(5, &[1, 2]);
    odd.peer_fin_at(6);
    odd.peer_fin_at(-1);
    odd.insert(0, &[0; 5]);
    assert_eq!(odd.next(), 8);
    assert!(!odd.fin_reached());
    odd.peer_fin_at(0);
    assert!(odd.fin_reached());
}

fn tcp_packet() -> PacketInfo {
    PacketInfo {
        protocol: Protocol::Tcp,
        header_len: 40,
        src: Endpoint { ip: 0x0102_0304, port: 80 },
        dst: Endpoint { ip: 0x0506_0708, port: 8080 },
        sequence: 0x0102_0304,
        acknowledgment: 0x0A0B_0C0D,
        flags: TcpFlags::from_bits(TcpFlags::ACK | TcpFlags::PSH),
        window: 0x1234,
        tcp_header_size: 20,
    }
}

#[test]
fn tcp_packet_bytes() {
    let mut out = Vec::new();
    display_bytes(&mut out, &tcp_packet(), &[9, 9]);
    let expected: Vec<u8> = vec![
        0x45, 0x00, 0x00, 0x2A, 0x00, 0x00, 0x40, 0x00, 0x40, 0x06, 0x00, 0x00, 1, 2, 3, 4, 5, 6,
        7, 8, //
        0x00, 0x50, 0x1F, 0x90, 1, 2, 3, 4, 0x0A, 0x0B, 0x0C, 0x0D, 0x50, 0x10, 0x12, 0x34, 0, 0,
        0, 0, //
        9, 9,
    ];
    assert_eq!(out, expected);
}

#[test]
fn tcp_header_bytes_hide_the_acknowledgment_without_the_flag() {
    let mut packet = tcp_packet();
    packet.flags = TcpFlags::from_bits(TcpFlags::SYN | TcpFlags::URG);
    packet.tcp_header_size = 32;
    let mut out = vec![7];
    display_tcp_bytes(&mut out, &packet);
    assert_eq!(
        out,
        vec![7, 0x00, 0x50, 0x1F, 0x90, 1, 2, 3, 4, 0, 0, 0, 0, 0x80, 0x02, 0x12, 0x34, 0, 0, 0, 0]
    );
    packet.flags = TcpFlags::from_bits(0xFF);
    let mut all = Vec::new();
    display_tcp_bytes(&mut all, &packet);
    assert_eq!(all[13], 0x17);
}

#[test]
fn udp_packet_bytes() {
    let packet = PacketInfo { protocol: Protocol::Udp, header_len: 28, ..tcp_packet() };
    let mut out = Vec::new();
    display_bytes(&mut out, &packet, &[1, 2, 3]);
    let expected: Vec<u8> = vec![
        0x45, 0x00, 0x00, 0x1F, 0x00, 0x00, 0x40, 0x00, 0x40, 0x11, 0x00, 0x00, 1, 2, 3, 4, 5, 6,
        7, 8, //
        0x00, 0x50, 0x1F, 0x90, 0x00, 0x0B, 0x00, 0x00, //
        1, 2, 3,
    ];
    assert_eq!(out, expected);
    let mut header = Vec::new();
    display_udp_bytes(&mut header, 0xABCD, 0x0102, 0x0100);
    assert_eq!(header, vec![0xAB, 0xCD, 0x01, 0x02, 0x01, 0x08, 0x00, 0x00]);
    let mut ip = Vec::new();
    display_ip_bytes(&mut ip, Protocol::Udp, 0x0100, 0x0203, 0xFFFF_FFFE, 0);
    assert_eq!(
        ip,
        vec![0x45, 0, 0x03, 0x03, 0, 0, 0x40, 0, 64, 17, 0, 0, 255, 255, 255, 254, 0, 0, 0, 0]
    );
}

#[test]
fn send_buffer_hands_out_all_that_the_window_lets_through() {
    let mut buffer = SendBuffer::new(1, 100);
    buffer.append(&[7; 10], 10).unwrap();
    let segments = buffer.next_transmittable(8, 3, 1);
    let shape: Vec<_> = segments.iter().map(|s| (s.start, s.payload.len(), s.fin)).collect();
    assert_eq!(shape, vec![(1, 3, false), (4, 3, false), (7, 2, false)]);
    assert!(buffer.next_transmittable(8, 3, 2).is_empty());
    assert!(buffer.next_transmittable(100, 0, 2).is_empty());
    assert_eq!(buffer.in_flight(), 8);
    buffer.queue_fin();
    let rest = buffer.next_transmittable(100, 3, 3);
    let shape: Vec<_> = rest.iter().map(|s| (s.start, s.payload.len(), s.fin)).collect();
    assert_eq!(shape, vec![(9, 2, true)]);
    assert!(buffer.has_fin_sent());
    // the round trip of the oldest segment is the one that is measured
    assert_eq!(buffer.on_cumulative_ack(12), Some(1));
    assert!(buffer.fin_acked());
}
