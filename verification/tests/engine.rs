use std::cell::{Cell, RefCell};
use std::rc::Rc;

use bytes::Bytes;
use tcp::connection::{Connection, MSS};
use tcp::{
    ConnectError, Dependencies, Endpoint, Ipv4Header, ListenError, PollState, PopPacketError,
    PushPacketError, RecvError, SackBlocks, SendError, StateTag, TcpError, TcpFlags, TcpHeader,
    TcpState, Timer, TimerKind, TimerRegisteredBy,
};

#[derive(Debug, Clone)]
struct Clock {
    now: Rc<Cell<u64>>,
    timers: Rc<RefCell<Vec<(u64, Timer, TimerRegisteredBy)>>>,
    by: TimerRegisteredBy,
}

impl Dependencies for Clock {
    fn register_timer(&self, time: u64, timer: Timer) {
        self.timers.borrow_mut().push((time, timer, self.by));
    }

    fn current_time(&self) -> u64 {
        self.now.get()
    }

    fn fork(&self) -> Self {
        Clock { now: self.now.clone(), timers: self.timers.clone(), by: TimerRegisteredBy::Child }
    }
}

fn clock_at(now: u64) -> Clock {
    Clock {
        now: Rc::new(Cell::new(now)),
        timers: Rc::new(RefCell::new(Vec::new())),
        by: TimerRegisteredBy::Parent,
    }
}

fn client_addr() -> Endpoint {
    Endpoint { ip: 0x0A00_0009, port: 5555 }
}

fn server_addr() -> Endpoint {
    Endpoint { ip: 0x0A00_0001, port: 80 }
}

fn plain(src: Endpoint, dst: Endpoint, flags: u8, seq: u32, ack: u32) -> TcpHeader {
    TcpHeader {
        ip: Ipv4Header { src: src.ip, dst: dst.ip },
        flags: TcpFlags::from_bits(flags),
        src_port: src.port,
        dst_port: dst.port,
        seq,
        ack,
        window_size: 65535,
        selective_acks: None,
        window_scale: None,
        timestamp: None,
        timestamp_echo: None,
    }
}

/// A client in SYN-SENT whose SYN, with the number that is returned, has been taken off.
fn connecting(clock: &Clock) -> (TcpState<Clock>, u32) {
    let mut client = TcpState::new(clock.clone());
    client.connect(server_addr(), || Ok::<_, ()>((client_addr(), ()))).unwrap();
    let (syn, _) = client.pop_packet().unwrap();
    (client, syn.seq)
}

/// An established client whose peer has the next sequence number 5001.
fn connected(clock: &Clock) -> (TcpState<Clock>, u32) {
    let (mut client, iss) = connecting(clock);
    let syn_ack = plain(
        server_addr(),
        client_addr(),
        TcpFlags::SYN | TcpFlags::ACK,
        5000,
        iss.wrapping_add(1),
    );
    client.push_packet(&syn_ack, Bytes::new()).unwrap();
    let (ack, _) = client.pop_packet().unwrap();
    assert_eq!(ack.flags.bits(), TcpFlags::ACK);
    assert_eq!(ack.seq, iss.wrapping_add(1));
    assert_eq!(ack.ack, 5001);
    assert_eq!(client.state(), StateTag::Established);
    clock.timers.borrow_mut().clear();
    (client, iss.wrapping_add(1))
}

fn drain(state: &mut TcpState<Clock>) -> Vec<(TcpHeader, Bytes)> {
    let mut out = Vec::new();
    while let Ok(segment) = state.pop_packet() {
        out.push(segment);
    }
    out
}

#[test]
fn new_state_refuses_everything_but_listen_and_connect() {
    let mut state = TcpState::new(clock_at(0));
    assert_eq!(state.state(), StateTag::Init);
    assert!(state.poll().is_empty());
    assert!(!state.wants_to_send());
    assert_eq!(state.local_remote_addrs(), None);
    assert_eq!(state.clear_error(), None);
    assert!(state.close().is_err());
    assert!(state.accept().is_err());
    assert_eq!(state.send(&[1], 1), Err(SendError::InvalidState));
    let mut sink = Vec::new();
    assert_eq!(state.recv(&mut sink, 1), Err(RecvError::InvalidState));
    let syn = plain(client_addr(), server_addr(), TcpFlags::SYN, 1, 0);
    assert_eq!(state.push_packet(&syn, Bytes::new()), Err(PushPacketError::InvalidState));
    assert!(matches!(state.pop_packet(), Err(PopPacketError::InvalidState)));
    assert_eq!(state.state(), StateTag::Init);
}

#[test]
fn failed_association_changes_nothing() {
    let mut state = TcpState::new(clock_at(0));
    assert!(matches!(
        state.listen(3, || Err::<(), _>("no port")),
        Err(ListenError::FailedAssociation("no port"))
    ));
    assert_eq!(state.state(), StateTag::Init);
    assert!(matches!(
        state.connect(server_addr(), || Err::<(Endpoint, ()), _>(13)),
        Err(ConnectError::FailedAssociation(13))
    ));
    assert_eq!(state.state(), StateTag::Init);
    assert_eq!(state.listen(3, || Ok::<_, ()>("token")).unwrap(), "token");
    assert_eq!(state.state(), StateTag::Listen);
    let mut called = false;
    assert!(matches!(
        state.listen(3, || {
            called = true;
            Ok::<_, ()>(())
        }),
        Err(ListenError::InvalidState)
    ));
    assert!(!called);
    assert!(matches!(
        state.connect(server_addr(), || Ok::<_, ()>((client_addr(), ()))),
        Err(ConnectError::InvalidState)
    ));
}

#[test]
fn connect_again_reports_progress() {
    let clock = clock_at(0);
    let (mut client, iss) = connecting(&clock);
    assert!(matches!(
        client.connect(server_addr(), || Ok::<_, ()>((client_addr(), ()))),
        Err(ConnectError::InProgress)
    ));
    assert_eq!(client.send(&[1], 1), Err(SendError::NotConnected));
    let mut sink = Vec::new();
    assert_eq!(client.recv(&mut sink, 1), Err(RecvError::NotConnected));
    let syn_ack = plain(
        server_addr(),
        client_addr(),
        TcpFlags::SYN | TcpFlags::ACK,
        5000,
        iss.wrapping_add(1),
    );
    client.push_packet(&syn_ack, Bytes::new()).unwrap();
    assert!(matches!(
        client.connect(server_addr(), || Ok::<_, ()>((client_addr(), ()))),
        Err(ConnectError::AlreadyConnected)
    ));
}

#[test]
fn syn_is_sent_five_times_and_then_the_attempt_times_out() {
    let clock = clock_at(0);
    let (mut client, iss) = connecting(&clock);
    let mut fired = Vec::new();
    for _ in 0..4 {
        let (at, timer, by) = clock.timers.borrow_mut().pop().unwrap();
        assert!(clock.timers.borrow().is_empty());
        assert_eq!(by, TimerRegisteredBy::Parent);
        clock.now.set(at);
        client.on_timer(&timer, by);
        let (syn, _) = client.pop_packet().unwrap();
        assert_eq!(syn.flags.bits(), TcpFlags::SYN);
        assert_eq!(syn.seq, iss);
        fired.push(at);
    }
    assert_eq!(fired, vec![1000, 3000, 7000, 15000]);
    let (at, timer, by) = clock.timers.borrow_mut().pop().unwrap();
    assert_eq!(at, 31000);
    clock.now.set(at);
    client.on_timer(&timer, by);
    assert_eq!(client.state(), StateTag::Closed);
    assert!(matches!(client.pop_packet(), Err(PopPacketError::NoPacket)));
    assert!(client.poll().contains(PollState::ERROR));
    assert!(client.poll().contains(PollState::CLOSED));
    assert!(!client.poll().contains(PollState::ESTABLISHED));
    assert_eq!(client.clear_error(), Some(TcpError::TimedOut));
    assert_eq!(client.local_remote_addrs(), Some((client_addr(), server_addr())));
}

#[test]
fn connection_attempt_ends_after_two_minutes() {
    let clock = clock_at(0);
    let (mut client, _) = connecting(&clock);
    let (_, timer, by) = clock.timers.borrow_mut().pop().unwrap();
    clock.now.set(120_000);
    client.on_timer(&timer, by);
    assert_eq!(client.state(), StateTag::Closed);
    assert_eq!(client.clear_error(), Some(TcpError::TimedOut));
}

#[test]
fn reset_in_syn_sent_counts_only_with_the_right_acknowledgment() {
    let clock = clock_at(0);
    let (mut client, iss) = connecting(&clock);
    let wrong = plain(server_addr(), client_addr(), TcpFlags::RST | TcpFlags::ACK, 0, iss);
    client.push_packet(&wrong, Bytes::new()).unwrap();
    assert_eq!(client.state(), StateTag::SynSent);
    let bare = plain(server_addr(), client_addr(), TcpFlags::RST, 0, 0);
    client.push_packet(&bare, Bytes::new()).unwrap();
    assert_eq!(client.state(), StateTag::SynSent);
    // an acknowledgment of something else is answered with a reset
    let stray = plain(server_addr(), client_addr(), TcpFlags::ACK, 77, iss.wrapping_add(9));
    client.push_packet(&stray, Bytes::new()).unwrap();
    let (reset, _) = client.pop_packet().unwrap();
    assert_eq!(reset.flags.bits(), TcpFlags::RST);
    assert_eq!(reset.seq, iss.wrapping_add(9));
    assert_eq!(client.state(), StateTag::SynSent);
    let right = plain(
        server_addr(),
        client_addr(),
        TcpFlags::RST | TcpFlags::ACK,
        0,
        iss.wrapping_add(1),
    );
    client.push_packet(&right, Bytes::new()).unwrap();
    assert_eq!(client.state(), StateTag::Closed);
    assert_eq!(client.clear_error(), Some(TcpError::ResetReceived));
}

#[test]
fn close_in_syn_sent_ends_the_attempt() {
    let clock = clock_at(0);
    let (mut client, _) = connecting(&clock);
    assert!(client.close().is_ok());
    assert_eq!(client.state(), StateTag::Closed);
    assert_eq!(client.clear_error(), None);
    assert!(client.close().is_err());
}

#[test]
fn simultaneous_open() {
    let clock = clock_at(0);
    let (mut client, iss) = connecting(&clock);
    let syn = plain(server_addr(), client_addr(), TcpFlags::SYN, 5000, 0);
    client.push_packet(&syn, Bytes::new()).unwrap();
    assert_eq!(client.state(), StateTag::SynReceived);
    let (syn_ack, _) = client.pop_packet().unwrap();
    assert_eq!(syn_ack.flags.bits(), TcpFlags::SYN | TcpFlags::ACK);
    assert_eq!((syn_ack.seq, syn_ack.ack), (iss, 5001));
    // the peer's own SYN with our acknowledgment is answered with an acknowledgment
    let peer_syn_ack = plain(
        server_addr(),
        client_addr(),
        TcpFlags::SYN | TcpFlags::ACK,
        5000,
        iss.wrapping_add(1),
    );
    client.push_packet(&peer_syn_ack, Bytes::new()).unwrap();
    let (ack, _) = client.pop_packet().unwrap();
    assert_eq!(ack.flags.bits(), TcpFlags::ACK);
    assert_eq!((ack.seq, ack.ack), (iss.wrapping_add(1), 5001));
    let peer_ack = plain(server_addr(), client_addr(), TcpFlags::ACK, 5001, iss.wrapping_add(1));
    client.push_packet(&peer_ack, Bytes::new()).unwrap();
    assert_eq!(client.state(), StateTag::Established);
}

#[test]
fn send_buffer_fills_up() {
    let clock = clock_at(0);
    let (mut client, _) = connected(&clock);
    let chunk = vec![7u8; 100_000];
    assert_eq!(client.send(&chunk, chunk.len()), Ok(100_000));
    assert_eq!(client.send(&chunk, 50_000), Ok(50_000));
    assert_eq!(client.send(&chunk, chunk.len()), Ok(100_000));
    assert!(client.poll().contains(PollState::WRITABLE));
    assert_eq!(client.send(&chunk, chunk.len()), Ok(12_144));
    assert!(!client.poll().contains(PollState::WRITABLE));
    assert_eq!(client.send(&chunk, chunk.len()), Err(SendError::Full));
    // the peer's window of 65535 bytes lets that much through
    let sent: usize = drain(&mut client).iter().map(|(_, p)| p.len()).sum();
    assert_eq!(sent, 65535);
}

#[test]
fn send_after_close_is_refused() {
    let clock = clock_at(0);
    let (mut client, snd) = connected(&clock);
    client.send(&[1, 2, 3], 3).unwrap();
    client.close().unwrap();
    assert_eq!(client.send(&[4], 1), Err(SendError::StreamClosed));
    assert!(client.poll().contains(PollState::SEND_CLOSED));
    assert!(!client.poll().contains(PollState::WRITABLE));
    // the FIN rides on the last bytes
    let segments = drain(&mut client);
    assert_eq!(segments.len(), 1);
    assert_eq!(segments[0].0.flags.bits(), TcpFlags::FIN | TcpFlags::PSH | TcpFlags::ACK);
    assert_eq!(segments[0].0.seq, snd);
    assert_eq!(&segments[0].1[..], &[1, 2, 3]);
}

#[test]
fn simultaneous_close_goes_through_closing() {
    let clock = clock_at(0);
    let (mut client, snd) = connected(&clock);
    client.close().unwrap();
    drain(&mut client);
    // the peer's FIN arrives before the acknowledgment of ours
    let fin = plain(server_addr(), client_addr(), TcpFlags::FIN | TcpFlags::ACK, 5001, snd);
    client.push_packet(&fin, Bytes::new()).unwrap();
    assert_eq!(client.state(), StateTag::Closing);
    let (ack, _) = client.pop_packet().unwrap();
    assert_eq!((ack.flags.bits(), ack.ack), (TcpFlags::ACK, 5002));
    let last = plain(server_addr(), client_addr(), TcpFlags::ACK, 5002, snd.wrapping_add(1));
    client.push_packet(&last, Bytes::new()).unwrap();
    assert_eq!(client.state(), StateTag::TimeWait);
}

#[test]
fn fin_with_acknowledgment_of_our_fin_goes_to_time_wait() {
    let clock = clock_at(0);
    let (mut client, snd) = connected(&clock);
    client.close().unwrap();
    drain(&mut client);
    let fin = plain(
        server_addr(),
        client_addr(),
        TcpFlags::FIN | TcpFlags::ACK,
        5001,
        snd.wrapping_add(1),
    );
    client.push_packet(&fin, Bytes::new()).unwrap();
    assert_eq!(client.state(), StateTag::TimeWait);
    assert!(client.poll().contains(PollState::RECV_CLOSED));
    assert!(client.poll().contains(PollState::SEND_CLOSED));
    assert!(!client.poll().contains(PollState::CLOSED));
}

#[test]
fn time_wait_acknowledges_a_repeated_fin_and_waits_anew() {
    let clock = clock_at(0);
    let (mut client, snd) = connected(&clock);
    client.close().unwrap();
    drain(&mut client);
    let fin = plain(
        server_addr(),
        client_addr(),
        TcpFlags::FIN | TcpFlags::ACK,
        5001,
        snd.wrapping_add(1),
    );
    client.push_packet(&fin, Bytes::new()).unwrap();
    drain(&mut client);
    let first = clock.timers.borrow().last().unwrap().1;
    assert_eq!((first.kind, first.at), (TimerKind::TimeWait, 120_000));

    clock.now.set(50_000);
    client.push_packet(&fin, Bytes::new()).unwrap();
    let (ack, _) = client.pop_packet().unwrap();
    assert_eq!((ack.flags.bits(), ack.ack), (TcpFlags::ACK, 5002));
    let second = clock.timers.borrow().last().unwrap().1;
    assert_eq!((second.kind, second.at), (TimerKind::TimeWait, 170_000));
    // the first timer does not apply any more
    clock.now.set(120_000);
    client.on_timer(&first, TimerRegisteredBy::Parent);
    assert_eq!(client.state(), StateTag::TimeWait);
    clock.now.set(170_000);
    client.on_timer(&second, TimerRegisteredBy::Parent);
    assert_eq!(client.state(), StateTag::Closed);
}

#[test]
fn acknowledgment_is_delayed_until_two_segments_are_owed() {
    let clock = clock_at(40);
    let (mut client, snd) = connected(&clock);
    let data = plain(server_addr(), client_addr(), TcpFlags::ACK, 5001, snd);
    client.push_packet(&data, Bytes::from(vec![1u8; 100])).unwrap();
    assert!(!client.wants_to_send());
    let (at, timer, _) = clock.timers.borrow()[0];
    assert_eq!((timer.kind, at), (TimerKind::DelayedAck, 240));
    clock.now.set(240);
    client.on_timer(&timer, TimerRegisteredBy::Parent);
    let (ack, _) = client.pop_packet().unwrap();
    assert_eq!((ack.flags.bits(), ack.ack), (TcpFlags::ACK, 5101));
    // firing again changes nothing
    client.on_timer(&timer, TimerRegisteredBy::Parent);
    assert!(!client.wants_to_send());

    let first = plain(server_addr(), client_addr(), TcpFlags::ACK, 5101, snd);
    client.push_packet(&first, Bytes::from(vec![2u8; MSS])).unwrap();
    assert!(!client.wants_to_send());
    let second = plain(server_addr(), client_addr(), TcpFlags::ACK, 5101 + MSS as u32, snd);
    client.push_packet(&second, Bytes::from(vec![3u8; MSS])).unwrap();
    let (ack, _) = client.pop_packet().unwrap();
    assert_eq!(ack.ack, 5101 + 2 * MSS as u32);
}

#[test]
fn outgoing_data_carries_the_acknowledgment() {
    let clock = clock_at(0);
    let (mut client, snd) = connected(&clock);
    let data = plain(server_addr(), client_addr(), TcpFlags::ACK, 5001, snd);
    client.push_packet(&data, Bytes::from(vec![1u8; 10])).unwrap();
    let timer = clock.timers.borrow()[0].1;
    client.send(&[5; 4], 4).unwrap();
    let (segment, payload) = client.pop_packet().unwrap();
    assert_eq!(segment.ack, 5011);
    assert_eq!(&payload[..], &[5; 4]);
    client.on_timer(&timer, TimerRegisteredBy::Parent);
    assert!(!client.wants_to_send());
}

#[test]
fn segment_outside_the_window_is_answered_with_an_acknowledgment() {
    let clock = clock_at(0);
    let (mut client, snd) = connected(&clock);
    let old = plain(server_addr(), client_addr(), TcpFlags::ACK, 4000, snd);
    client.push_packet(&old, Bytes::from(vec![1u8; 10])).unwrap();
    let (ack, _) = client.pop_packet().unwrap();
    assert_eq!((ack.flags.bits(), ack.seq, ack.ack), (TcpFlags::ACK, snd, 5001));
    // so is an acknowledgment of what was never sent
    let ahead = plain(server_addr(), client_addr(), TcpFlags::ACK, 5001, snd.wrapping_add(1));
    client.push_packet(&ahead, Bytes::new()).unwrap();
    assert_eq!(drain(&mut client).len(), 1);
    // and a SYN
    let syn = plain(server_addr(), client_addr(), TcpFlags::SYN, 5001, 0);
    client.push_packet(&syn, Bytes::new()).unwrap();
    assert_eq!(drain(&mut client).len(), 1);
    // a segment of another connection is dropped
    let other = plain(client_addr(), client_addr(), TcpFlags::ACK, 5001, snd);
    client.push_packet(&other, Bytes::from(vec![1u8; 10])).unwrap();
    assert!(!client.wants_to_send());
    let mut sink = Vec::new();
    assert_eq!(client.recv(&mut sink, 10), Err(RecvError::Empty));
    assert_eq!(client.state(), StateTag::Established);
}

#[test]
fn selective_acknowledgment_steers_retransmission() {
    let clock = clock_at(0);
    let mut client = TcpState::new(clock.clone());
    client.connect(server_addr(), || Ok::<_, ()>((client_addr(), ()))).unwrap();
    let (syn, _) = client.pop_packet().unwrap();
    let snd = syn.seq.wrapping_add(1);
    let mut syn_ack = plain(server_addr(), client_addr(), TcpFlags::SYN | TcpFlags::ACK, 5000, snd);
    syn_ack.selective_acks = Some(SackBlocks::empty());
    client.push_packet(&syn_ack, Bytes::new()).unwrap();
    drain(&mut client);
    clock.timers.borrow_mut().clear();

    let data: Vec<u8> = (0..1500u32).map(|i| i as u8).collect();
    client.send(&data, data.len()).unwrap();
    let sent = drain(&mut client);
    assert_eq!(sent.len(), 3);
    // the peer has the second segment but not the first
    let mut report = plain(server_addr(), client_addr(), TcpFlags::ACK, 5001, snd);
    report.selective_acks =
        Some(SackBlocks::from_ranges(&vec![(snd.wrapping_add(536), snd.wrapping_add(1072))]));
    client.push_packet(&report, Bytes::new()).unwrap();
    let timer = clock.timers.borrow()[0].1;
    clock.now.set(1000);
    client.on_timer(&timer, TimerRegisteredBy::Parent);
    let again = drain(&mut client);
    assert_eq!(again.len(), 1);
    assert_eq!(again[0].0.seq, snd);
    // now it has the first as well
    let mut report = plain(server_addr(), client_addr(), TcpFlags::ACK, 5001, snd);
    report.selective_acks = Some(SackBlocks::from_ranges(&vec![(snd, snd.wrapping_add(1072))]));
    client.push_packet(&report, Bytes::new()).unwrap();
    let timer = clock.timers.borrow().last().unwrap().1;
    clock.now.set(timer.at);
    client.on_timer(&timer, TimerRegisteredBy::Parent);
    let again = drain(&mut client);
    assert_eq!(again.len(), 1);
    assert_eq!(again[0].0.seq, snd.wrapping_add(1072));
    assert_eq!(&again[0].1[..], &data[1072..]);
}

#[test]
fn window_scaling_is_used_when_both_sides_offer_it() {
    let clock = clock_at(0);
    let mut client = TcpState::new(clock.clone());
    client.connect(server_addr(), || Ok::<_, ()>((client_addr(), ()))).unwrap();
    let (syn, _) = client.pop_packet().unwrap();
    assert_eq!(syn.window_size, 65535);
    let snd = syn.seq.wrapping_add(1);
    let mut syn_ack = plain(server_addr(), client_addr(), TcpFlags::SYN | TcpFlags::ACK, 5000, snd);
    syn_ack.window_scale = Some(2);
    client.push_packet(&syn_ack, Bytes::new()).unwrap();
    let (ack, _) = client.pop_packet().unwrap();
    // the own window of 262144 bytes is announced in units of eight bytes
    assert_eq!(ack.window_size, 32768);
    // the peer announces 20000 units of four bytes
    let mut update = plain(server_addr(), client_addr(), TcpFlags::ACK, 5001, snd);
    update.window_size = 20_000;
    client.push_packet(&update, Bytes::new()).unwrap();
    let chunk = vec![1u8; 200_000];
    client.send(&chunk, chunk.len()).unwrap();
    let sent: usize = drain(&mut client).iter().map(|(_, p)| p.len()).sum();
    assert_eq!(sent, 80_000);
}

#[test]
fn timestamps_are_echoed() {
    let clock = clock_at(77);
    let mut client = TcpState::new(clock.clone());
    client.connect(server_addr(), || Ok::<_, ()>((client_addr(), ()))).unwrap();
    let (syn, _) = client.pop_packet().unwrap();
    assert_eq!(syn.timestamp, Some(77));
    let snd = syn.seq.wrapping_add(1);
    let mut syn_ack = plain(server_addr(), client_addr(), TcpFlags::SYN | TcpFlags::ACK, 5000, snd);
    syn_ack.timestamp = Some(123_456);
    syn_ack.timestamp_echo = Some(77);
    clock.now.set(90);
    client.push_packet(&syn_ack, Bytes::new()).unwrap();
    let (ack, _) = client.pop_packet().unwrap();
    assert_eq!(ack.timestamp, Some(90));
    assert_eq!(ack.timestamp_echo, Some(123_456));
    let mut data = plain(server_addr(), client_addr(), TcpFlags::ACK, 5001, snd);
    data.timestamp = Some(123_999);
    clock.now.set(0x1_0000_0005);
    client.push_packet(&data, Bytes::from(vec![0u8; 2 * MSS])).unwrap();
    let (ack, _) = client.pop_packet().unwrap();
    assert_eq!(ack.timestamp, Some(5));
    assert_eq!(ack.timestamp_echo, Some(123_999));
}

#[test]
fn recv_opens_the_window_with_an_acknowledgment() {
    let clock = clock_at(0);
    let (mut client, snd) = connected(&clock);
    let mut seq = 5001u32;
    let mut pushed = 0usize;
    while pushed < 262_144 {
        let len = (262_144 - pushed).min(60_000);
        let data = plain(server_addr(), client_addr(), TcpFlags::ACK, seq, snd);
        client.push_packet(&data, Bytes::from(vec![9u8; len])).unwrap();
        seq = seq.wrapping_add(len as u32);
        pushed += len;
    }
    let acks = drain(&mut client);
    assert_eq!(acks.last().unwrap().0.window_size, 0);
    assert_eq!(acks.last().unwrap().0.ack, 5001 + 262_144);
    clock.timers.borrow_mut().clear();
    let mut sink = Vec::new();
    assert_eq!(client.recv(&mut sink, 100), Ok(100));
    assert!(!client.wants_to_send());
    assert_eq!(client.recv(&mut sink, 1000), Ok(1000));
    let (update, _) = client.pop_packet().unwrap();
    assert_eq!(update.flags.bits(), TcpFlags::ACK);
    assert_eq!(update.window_size, 1100);
    assert_eq!(sink.len(), 1100);
    assert_eq!(client.recv(&mut sink, 0), Ok(0));
}

#[test]
fn listener_answers_strays_and_resets_children_when_closed() {
    let clock = clock_at(0);
    let mut listener = TcpState::new(clock.clone());
    listener.listen(3, || Ok::<_, ()>(())).unwrap();
    // a reset and a bare segment for no connection are dropped
    let reset = plain(client_addr(), server_addr(), TcpFlags::RST, 1, 0);
    listener.push_packet(&reset, Bytes::new()).unwrap();
    let bare = plain(client_addr(), server_addr(), TcpFlags::FIN, 1, 0);
    listener.push_packet(&bare, Bytes::new()).unwrap();
    assert!(!listener.wants_to_send());
    // an acknowledgment for no connection is answered with a reset
    let stray = plain(client_addr(), server_addr(), TcpFlags::ACK, 1, 900);
    listener.push_packet(&stray, Bytes::new()).unwrap();
    let (answer, _) = listener.pop_packet().unwrap();
    assert_eq!(answer.flags.bits(), TcpFlags::RST);
    assert_eq!(answer.seq, 900);
    assert_eq!((answer.src(), answer.dst()), (server_addr(), client_addr()));

    let syn = plain(client_addr(), server_addr(), TcpFlags::SYN, 1000, 0);
    listener.push_packet(&syn, Bytes::new()).unwrap();
    let (syn_ack, _) = listener.pop_packet().unwrap();
    let other = Endpoint { ip: 0x0A00_0009, port: 6666 };
    let syn = plain(other, server_addr(), TcpFlags::SYN, 2000, 0);
    listener.push_packet(&syn, Bytes::new()).unwrap();
    let (other_syn_ack, _) = listener.pop_packet().unwrap();
    let ack = plain(other, server_addr(), TcpFlags::ACK, 2001, other_syn_ack.seq.wrapping_add(1));
    listener.push_packet(&ack, Bytes::new()).unwrap();
    assert!(listener.poll().contains(PollState::READY_TO_ACCEPT));

    assert!(listener.close().is_ok());
    assert_eq!(listener.state(), StateTag::Closed);
    assert_eq!(listener.local_remote_addrs(), None);
    let resets = drain(&mut listener);
    assert_eq!(resets.len(), 2);
    assert_eq!(resets[0].0.flags.bits(), TcpFlags::RST | TcpFlags::ACK);
    assert_eq!(resets[0].0.dst(), client_addr());
    assert_eq!(resets[0].0.seq, syn_ack.seq.wrapping_add(1));
    assert_eq!(resets[0].0.ack, 1001);
    assert_eq!(resets[1].0.flags.bits(), TcpFlags::RST | TcpFlags::ACK);
    assert_eq!(resets[1].0.dst(), other);
    assert_eq!(resets[1].0.ack, 2001);
    assert!(listener.poll().contains(PollState::CLOSED));
    assert!(!listener.poll().contains(PollState::ESTABLISHED));
}

#[test]
fn listener_drops_a_child_that_is_reset_or_times_out() {
    let clock = clock_at(0);
    let mut listener = TcpState::new(clock.clone());
    listener.listen(1, || Ok::<_, ()>(())).unwrap();
    let syn = plain(client_addr(), server_addr(), TcpFlags::SYN, 1000, 0);
    listener.push_packet(&syn, Bytes::new()).unwrap();
    let (syn_ack, _) = listener.pop_packet().unwrap();
    // the backlog is used up
    let other = Endpoint { ip: 0x0A00_0009, port: 6666 };
    let second = plain(other, server_addr(), TcpFlags::SYN, 2000, 0);
    listener.push_packet(&second, Bytes::new()).unwrap();
    assert!(!listener.wants_to_send());
    // a reset in the window removes the child and makes room
    let reset = plain(client_addr(), server_addr(), TcpFlags::RST, 1001, 0);
    listener.push_packet(&reset, Bytes::new()).unwrap();
    listener.push_packet(&second, Bytes::new()).unwrap();
    let (answer, _) = listener.pop_packet().unwrap();
    assert_eq!(answer.dst(), other);
    assert_ne!(answer.seq, syn_ack.seq.wrapping_sub(1));

    // the second child's SYN is sent five times, then the child is given up
    let timers: Vec<_> = clock.timers.borrow().iter().cloned().collect();
    let (mut at, mut timer, by) = *timers.last().unwrap();
    assert_eq!(by, TimerRegisteredBy::Child);
    assert_eq!(timer.remote, other);
    for _ in 0..4 {
        clock.now.set(at);
        listener.on_timer(&timer, by);
        let (again, _) = listener.pop_packet().unwrap();
        assert_eq!(again.flags.bits(), TcpFlags::SYN | TcpFlags::ACK);
        let next = *clock.timers.borrow().last().unwrap();
        at = next.0;
        timer = next.1;
    }
    clock.now.set(at);
    listener.on_timer(&timer, by);
    assert!(!listener.wants_to_send());
    listener.push_packet(&syn, Bytes::new()).unwrap();
    assert!(listener.wants_to_send());
    // a timer with the tag of the listener itself is not for a child
    listener.on_timer(&timer, TimerRegisteredBy::Parent);
    assert_eq!(listener.state(), StateTag::Listen);
}

#[test]
fn connection_can_be_reset_from_the_local_side() {
    let local = client_addr();
    let remote = server_addr();
    let mut conn = Connection::connect(10, local, remote);
    assert_eq!(conn.state(), StateTag::SynSent);
    assert!(conn.rst_close(10).is_err());
    let syn = conn.pop_packet(10).unwrap();
    let syn_ack = plain(remote, local, TcpFlags::SYN | TcpFlags::ACK, 5000, syn.header.seq.wrapping_add(1));
    conn.push_packet(20, &syn_ack, &[]);
    assert_eq!(conn.state(), StateTag::Established);
    conn.pop_packet(20).unwrap();
    conn.take_timers();

    assert!(conn.rst_close(30).is_ok());
    assert_eq!(conn.state(), StateTag::Rst);
    let reset = conn.pop_packet(30).unwrap();
    assert_eq!(reset.header.flags.bits(), TcpFlags::RST | TcpFlags::ACK);
    assert_eq!(reset.header.seq, syn.header.seq.wrapping_add(1));
    assert_eq!(reset.header.ack, 5001);
    assert_eq!(conn.send(&[1], 1), Err(SendError::InvalidState));
    assert!(conn.close().is_err());
    assert!(conn.rst_close(31).is_err());
    let timers = conn.take_timers();
    assert_eq!(timers.len(), 1);
    assert_eq!((timers[0].kind, timers[0].at), (TimerKind::Reset, 30));
    conn.on_timer(30, &timers[0]);
    assert_eq!(conn.state(), StateTag::Closed);
    assert_eq!(conn.clear_error(), Some(TcpError::ResetSent));
    assert_eq!(conn.clear_error(), None);
}

#[test]
fn first_latched_error_stays() {
    let local = client_addr();
    let remote = server_addr();
    let mut conn = Connection::connect(10, local, remote);
    let syn = conn.pop_packet(10).unwrap();
    let snd = syn.header.seq.wrapping_add(1);
    let syn_ack = plain(remote, local, TcpFlags::SYN | TcpFlags::ACK, 5000, snd);
    conn.push_packet(20, &syn_ack, &[]);
    conn.rst_close(30).unwrap();
    let reset = plain(remote, local, TcpFlags::RST, 5001, snd);
    conn.push_packet(31, &reset, &[]);
    assert_eq!(conn.state(), StateTag::Rst);
    assert_eq!(conn.clear_error(), Some(TcpError::ResetSent));
}

#[test]
fn round_trip_of_the_handshake_sets_the_timeout() {
    let clock = clock_at(0);
    let (mut client, iss) = connecting(&clock);
    clock.now.set(3000);
    let syn_ack = plain(
        server_addr(),
        client_addr(),
        TcpFlags::SYN | TcpFlags::ACK,
        5000,
        iss.wrapping_add(1),
    );
    // the SYN timer has not fired, so the SYN was sent once and its round trip counts
    client.push_packet(&syn_ack, Bytes::new()).unwrap();
    drain(&mut client);
    clock.timers.borrow_mut().clear();
    client.send(&[1], 1).unwrap();
    drain(&mut client);
    // srtt = 3000, rttvar = 1500, rto = 3000 + 4 * 1500
    assert_eq!(clock.timers.borrow()[0].0, 3000 + 9000);
}

#[test]
fn connection_reports_its_sequence_numbers() {
    let local = client_addr();
    let remote = server_addr();
    let mut conn = Connection::connect(4, local, remote);
    let iss = tcp::connection::initial_sequence_at(4);
    assert_eq!(iss, 1000);
    assert_eq!(conn.tcb().iss, iss);
    assert_eq!((conn.local_addr(), conn.remote_addr()), (local, remote));
    // during the handshake the SYN is what is not acknowledged
    assert_eq!((conn.snd_una(), conn.snd_nxt()), (iss, iss.wrapping_add(1)));
    assert!(!conn.egress_is_empty());
    assert!(conn.wants_to_send());
    assert_eq!(conn.send_room(), 0);
    let syn = conn.pop_packet(5).unwrap();
    assert!(conn.owns(&plain(remote, local, 0, 0, 0)));
    assert!(!conn.owns(&syn.header));
    assert!(conn.egress_is_empty());
    let syn_ack = plain(remote, local, TcpFlags::SYN | TcpFlags::ACK, u32::MAX, iss.wrapping_add(1));
    conn.push_packet(6, &syn_ack, &[]);
    assert_eq!(conn.rcv_nxt(), 0);
    assert_eq!((conn.snd_una(), conn.snd_nxt()), (iss.wrapping_add(1), iss.wrapping_add(1)));
    assert_eq!(conn.send_room(), 262_144);
    assert_eq!(conn.send(&[0; 700], 700), Ok(700));
    assert_eq!(conn.send_room(), 262_144 - 700);
    conn.pop_packet(7).unwrap();
    conn.pop_packet(7).unwrap();
    conn.pop_packet(7).unwrap();
    assert_eq!((conn.snd_una(), conn.snd_nxt()), (iss.wrapping_add(1), iss.wrapping_add(701)));
    let ack = plain(remote, local, TcpFlags::ACK, 0, iss.wrapping_add(537));
    conn.push_packet(8, &ack, &[]);
    assert_eq!((conn.snd_una(), conn.snd_nxt()), (iss.wrapping_add(537), iss.wrapping_add(701)));
    assert_eq!(conn.tcb().snd_wnd, 65535);
    assert_eq!(conn.tcb().dup_acks, 0);
    conn.push_packet(9, &ack, &[]);
    conn.push_packet(9, &ack, &[]);
    assert_eq!(conn.tcb().dup_acks, 2);
    assert!(conn.readiness().writable);
    assert!(conn.readiness().established);
    let timers = conn.take_timers();
    assert!(timers.iter().all(|t| t.kind == TimerKind::Retransmit));
    assert!(timers.iter().all(|t| conn.timer_applies(t) == (t.at == 1008)));
    assert!(conn.take_egress().is_empty());
}

#[test]
fn a_shrunken_window_takes_segments_back() {
    let local = client_addr();
    let remote = server_addr();
    let mut conn = Connection::connect(0, local, remote);
    let syn = conn.pop_packet(0).unwrap();
    let snd = syn.header.seq.wrapping_add(1);
    let syn_ack = plain(remote, local, TcpFlags::SYN | TcpFlags::ACK, 5000, snd);
    conn.push_packet(0, &syn_ack, &[]);
    conn.pop_packet(0).unwrap();
    conn.send(&[0; 2000], 2000).unwrap();
    while conn.pop_packet(1).is_ok() {}
    assert_eq!(conn.snd_nxt(), snd.wrapping_add(2000));
    // the peer now takes only 600 bytes: what was sent behind them counts as not sent
    let mut update = plain(remote, local, TcpFlags::ACK, 5001, snd);
    update.window_size = 600;
    conn.push_packet(2, &update, &[]);
    assert_eq!(conn.snd_nxt(), snd.wrapping_add(536));
    assert_eq!(conn.tcb().snd_wnd, 600);
    let next = conn.pop_packet(3).unwrap();
    assert_eq!(next.header.seq, snd.wrapping_add(536));
    assert_eq!(next.payload.len(), 64);
    assert!(conn.pop_packet(3).is_err());
    // an older segment does not set the window
    let mut old = plain(remote, local, TcpFlags::ACK, 5000, snd);
    old.window_size = 60_000;
    conn.push_packet(4, &old, &[]);
    assert_eq!(conn.tcb().snd_wnd, 600);
}

/// Two connections after a three-way handshake, the first of which has opened.
fn pair() -> (Connection, Connection) {
    let mut opener = Connection::connect(0, client_addr(), server_addr());
    let syn = opener.pop_packet(1).unwrap();
    let mut answerer = Connection::accept_syn(2, &syn.header);
    let syn_ack = answerer.pop_packet(3).unwrap();
    opener.push_packet(4, &syn_ack.header, &syn_ack.payload);
    let ack = opener.pop_packet(5).unwrap();
    answerer.push_packet(6, &ack.header, &ack.payload);
    opener.take_timers();
    answerer.take_timers();
    assert_eq!(opener.state(), StateTag::Established);
    assert_eq!(answerer.state(), StateTag::Established);
    (opener, answerer)
}

/// Carries every segment that `from` hands out to `to` and gives their number.
fn carry(from: &mut Connection, to: &mut Connection, now: u64) -> usize {
    let mut carried = 0;
    while let Ok(segment) = from.pop_packet(now) {
        to.push_packet(now, &segment.header, &segment.payload);
        carried += 1;
    }
    carried
}

#[test]
fn one_exchange_carries_almost_a_full_buffer() {
    for len in [1usize, 535, 536, 1071, 1072, 65_535, 65_536, 100_000, 262_136] {
        let (mut sender, mut receiver) = pair();
        let data: Vec<u8> = (0..len).map(|i| (i % 253) as u8).collect();
        assert_eq!(sender.send(&data, len), Ok(len));
        carry(&mut sender, &mut receiver, 7);
        carry(&mut receiver, &mut sender, 8);
        carry(&mut sender, &mut receiver, 9);
        let mut out = Vec::new();
        assert_eq!(receiver.recv(10, &mut out, len), Ok(len));
        assert!(out == data);
    }
}

#[test]
fn a_full_buffer_takes_more_than_one_exchange() {
    let (mut sender, mut receiver) = pair();
    let len = 262_144;
    let data: Vec<u8> = (0..len).map(|i| (i % 253) as u8).collect();
    assert_eq!(sender.send(&data, len + 1), Ok(len));
    let mut now = 7;
    let mut rounds = 0;
    while receiver.readiness().readable == false || receiver.tcb().ack_owed > 0 || rounds < 3 {
        rounds += 1;
        assert!(rounds < 50);
        carry(&mut sender, &mut receiver, now);
        carry(&mut receiver, &mut sender, now);
        for timer in receiver.take_timers() {
            now = now.max(timer.at);
            receiver.on_timer(now, &timer);
        }
        for timer in sender.take_timers() {
            now = now.max(timer.at);
            sender.on_timer(now, &timer);
        }
    }
    let mut out = Vec::new();
    assert_eq!(receiver.recv(now, &mut out, len), Ok(len));
    assert!(out == data);
}

#[test]
fn fin_ahead_of_a_gap_waits_for_the_bytes() {
    let clock = clock_at(0);
    let (mut client, snd) = connected(&clock);
    let fin = plain(server_addr(), client_addr(), TcpFlags::FIN | TcpFlags::ACK, 5011, snd);
    client.push_packet(&fin, Bytes::new()).unwrap();
    assert_eq!(client.state(), StateTag::Established);
    assert!(!client.poll().contains(PollState::RECV_CLOSED));
    let data = plain(server_addr(), client_addr(), TcpFlags::ACK, 5001, snd);
    client.push_packet(&data, Bytes::from(vec![4u8; 10])).unwrap();
    assert_eq!(client.state(), StateTag::CloseWait);
    let acks = drain(&mut client);
    assert_eq!(acks.last().unwrap().0.ack, 5012);
    // the bytes are read first, then the end of the stream is seen
    assert!(!client.poll().contains(PollState::RECV_CLOSED));
    let mut sink = Vec::new();
    assert_eq!(client.recv(&mut sink, 100), Ok(10));
    assert_eq!(client.recv(&mut sink, 100), Err(RecvError::StreamClosed));
    assert!(client.poll().contains(PollState::RECV_CLOSED));
    // a repeated FIN is acknowledged again
    client.push_packet(&fin, Bytes::new()).unwrap();
    let acks = drain(&mut client);
    assert_eq!(acks.len(), 1);
    assert_eq!(acks[0].0.ack, 5012);
    assert_eq!(client.state(), StateTag::CloseWait);
}

#[test]
fn fin_is_sent_again_when_the_timer_fires() {
    let clock = clock_at(0);
    let (mut client, snd) = connected(&clock);
    client.close().unwrap();
    let (fin, _) = client.pop_packet().unwrap();
    assert_eq!(fin.flags.bits(), TcpFlags::FIN | TcpFlags::ACK);
    let (at, timer, by) = clock.timers.borrow()[0];
    clock.now.set(at);
    client.on_timer(&timer, by);
    let (again, payload) = client.pop_packet().unwrap();
    assert_eq!(again.flags.bits(), TcpFlags::FIN | TcpFlags::ACK);
    assert_eq!(again.seq, snd);
    assert!(payload.is_empty());
    assert_eq!(client.state(), StateTag::FinWaitOne);
}

#[test]
fn child_takes_data_and_a_fin_before_it_is_accepted() {
    let clock = clock_at(0);
    let mut listener = TcpState::new(clock.clone());
    listener.listen(2, || Ok::<_, ()>(())).unwrap();
    let syn = plain(client_addr(), server_addr(), TcpFlags::SYN, 1000, 0);
    listener.push_packet(&syn, Bytes::new()).unwrap();
    let (syn_ack, _) = listener.pop_packet().unwrap();
    let snd = syn_ack.seq.wrapping_add(1);
    // the acknowledgment of the handshake carries bytes and the FIN
    let all = plain(client_addr(), server_addr(), TcpFlags::ACK | TcpFlags::FIN, 1001, snd);
    listener.push_packet(&all, Bytes::from(vec![8u8; 20])).unwrap();
    assert!(listener.poll().contains(PollState::READY_TO_ACCEPT));
    let (ack, _) = listener.pop_packet().unwrap();
    assert_eq!(ack.flags.bits(), TcpFlags::ACK);
    assert_eq!(ack.ack, 1022);
    let mut child = listener.accept().unwrap().finalize(|deps: &mut Clock| {
        deps.by = TimerRegisteredBy::Parent;
    });
    assert_eq!(child.state(), StateTag::CloseWait);
    assert!(child.poll().contains(PollState::ESTABLISHED));
    let mut sink = Vec::new();
    assert_eq!(child.recv(&mut sink, 100), Ok(20));
    assert_eq!(sink, vec![8u8; 20]);
    assert_eq!(child.send(&[1, 2], 2), Ok(2));
    child.close().unwrap();
    assert_eq!(child.state(), StateTag::LastAck);
    let out = drain(&mut child);
    assert_eq!(out.len(), 1);
    assert_eq!(out[0].0.flags.bits(), TcpFlags::FIN | TcpFlags::PSH | TcpFlags::ACK);
}
