use std::cell::{Cell, RefCell};
use std::rc::Rc;

use bytes::Bytes;
use tcp::connection::initial_sequence_at;
use tcp::{
    AcceptError, CloseError, ConnectError, Dependencies, Endpoint, Ipv4Header, ListenError,
    PollState, PopPacketError, PushPacketError, RecvError, SackBlocks, SendError, StateTag,
    TcpError, TcpFlags, TcpHeader, TcpState, Timer, TimerKind, TimerRegisteredBy,
};

#[derive(Debug, Clone)]
struct Host {
    clock: Rc<Cell<u64>>,
    timers: Rc<RefCell<Vec<(u64, Timer, TimerRegisteredBy)>>>,
    by: TimerRegisteredBy,
}

impl Dependencies for Host {
    fn register_timer(&self, time: u64, timer: Timer) {
        self.timers.borrow_mut().push((time, timer, self.by));
    }

    fn current_time(&self) -> u64 {
        self.clock.get()
    }

    fn fork(&self) -> Self {
        Host { clock: self.clock.clone(), timers: self.timers.clone(), by: TimerRegisteredBy::Child }
    }
}

fn host_at(now: u64) -> Host {
    Host {
        clock: Rc::new(Cell::new(now)),
        timers: Rc::new(RefCell::new(Vec::new())),
        by: TimerRegisteredBy::Parent,
    }
}

fn ip(a: u8, b: u8, c: u8, d: u8) -> u32 {
    u32::from_be_bytes([a, b, c, d])
}

fn endpoint(a: u8, b: u8, c: u8, d: u8, port: u16) -> Endpoint {
    Endpoint { ip: ip(a, b, c, d), port }
}

fn segment(src: Endpoint, dst: Endpoint, flags: u8, seq: u32, ack: u32) -> TcpHeader {
    TcpHeader {
        ip: Ipv4Header { src: src.ip, dst: dst.ip },
        flags: TcpFlags::from_bits(flags),
        src_port: src.port,
        dst_port: dst.port,
        seq,
        ack,
        window_size: 65535,
        selective_acks: None,
        window_scale: None,
        timestamp: None,
        timestamp_echo: None,
    }
}

fn pattern(from: usize, to: usize) -> Vec<u8> {
    (from..to).map(|i| (i % 251) as u8).collect()
}

const PEER: (u8, u8, u8, u8, u16) = (10, 0, 0, 2, 40000);
const LOCAL: (u8, u8, u8, u8, u16) = (127, 0, 0, 1, 8080);

fn peer() -> Endpoint {
    endpoint(PEER.0, PEER.1, PEER.2, PEER.3, PEER.4)
}

fn local() -> Endpoint {
    endpoint(LOCAL.0, LOCAL.1, LOCAL.2, LOCAL.3, LOCAL.4)
}

/// A listener with one connection from `peer()` whose handshake is complete. The peer's SYN
/// had the number `irs`; the SYN that answered it had the number that is returned.
fn listener_with_child(host: &Host, irs: u32, sack: bool) -> (TcpState<Host>, u32) {
    let mut listener = TcpState::new(host.clone());
    listener.listen(1, || Ok::<_, ()>(())).unwrap();
    let mut syn = segment(peer(), local(), TcpFlags::SYN, irs, 0);
    if sack {
        syn.selective_acks = Some(SackBlocks::empty());
    }
    listener.push_packet(&syn, Bytes::new()).unwrap();
    let (syn_ack, payload) = listener.pop_packet().unwrap();
    assert!(payload.is_empty());
    assert_eq!(syn_ack.flags.bits(), TcpFlags::SYN | TcpFlags::ACK);
    assert_eq!(syn_ack.ack, irs.wrapping_add(1));
    let ack = segment(
        peer(),
        local(),
        TcpFlags::ACK,
        irs.wrapping_add(1),
        syn_ack.seq.wrapping_add(1),
    );
    listener.push_packet(&ack, Bytes::new()).unwrap();
    (listener, syn_ack.seq)
}

/// An established connection at `local()` with `peer()`, accepted from a listener.
fn established(host: &Host, irs: u32, sack: bool) -> (TcpState<Host>, u32) {
    let (mut listener, iss) = listener_with_child(host, irs, sack);
    let accepted = listener.accept().unwrap();
    let state = accepted.finalize(|deps: &mut Host| deps.by = TimerRegisteredBy::Parent);
    (state, iss)
}

#[test]
fn active_open_emits_syn() {
    let host = host_at(5);
    let mut state = TcpState::new(host.clone());
    let dst = endpoint(127, 0, 0, 1, 80);
    let bind = endpoint(127, 0, 0, 1, 2532);
    state.connect(dst, || Ok::<_, ()>((bind, ()))).unwrap();
    assert_eq!(state.state(), StateTag::SynSent);

    let (header, payload) = state.pop_packet().unwrap();
    assert!(payload.is_empty());
    assert_eq!(header.flags.bits(), TcpFlags::SYN);
    assert!(header.flags.contains(TcpFlags::SYN));
    assert_eq!(header.dst(), dst);
    assert_eq!(header.src(), bind);
    assert_eq!(header.seq, initial_sequence_at(5));
    assert_eq!(header.seq, 1250);
    assert_eq!(header.ack, 0);
    // the first SYN offers every option
    assert_eq!(header.window_scale, Some(3));
    assert_eq!(header.selective_acks, Some(SackBlocks::empty()));
    assert_eq!(header.timestamp, Some(5));
    assert_eq!(header.timestamp_echo, None);
    assert_eq!(state.local_remote_addrs(), Some((bind, dst)));
    // the retransmission timer is set for one second later
    let timers = host.timers.borrow();
    assert_eq!(timers.len(), 1);
    assert_eq!(timers[0].0, 1005);
    assert_eq!(timers[0].1.kind, TimerKind::Retransmit);
    assert_eq!(timers[0].2, TimerRegisteredBy::Parent);
}

#[test]
fn listener_completes_handshake() {
    let host = host_at(0);
    let mut listener = TcpState::new(host.clone());
    listener.listen(1, || Ok::<_, ()>(())).unwrap();
    assert_eq!(listener.state(), StateTag::Listen);
    assert_eq!(listener.local_remote_addrs(), None);

    let syn = segment(peer(), local(), TcpFlags::SYN, 1000, 0);
    listener.push_packet(&syn, Bytes::new()).unwrap();
    assert!(listener.wants_to_send());
    assert!(!listener.poll().contains(PollState::READY_TO_ACCEPT));

    let (syn_ack, _) = listener.pop_packet().unwrap();
    assert_eq!(syn_ack.flags.bits(), TcpFlags::SYN | TcpFlags::ACK);
    assert_eq!(syn_ack.ack, 1001);
    assert_eq!(syn_ack.src(), local());
    assert_eq!(syn_ack.dst(), peer());
    // the peer offered no option, so none is taken up
    assert_eq!(syn_ack.window_scale, None);
    assert_eq!(syn_ack.selective_acks, None);
    assert_eq!(syn_ack.timestamp, None);
    let s = syn_ack.seq;

    let ack = segment(peer(), local(), TcpFlags::ACK, 1001, s.wrapping_add(1));
    listener.push_packet(&ack, Bytes::new()).unwrap();
    assert!(listener.poll().contains(PollState::READY_TO_ACCEPT));
    assert_eq!(listener.poll().bits(), PollState::READY_TO_ACCEPT);

    let accepted = listener.accept().unwrap();
    assert_eq!(accepted.local_addr(), local());
    assert_eq!(accepted.remote_addr(), peer());
    assert!(!listener.poll().contains(PollState::READY_TO_ACCEPT));
    assert!(matches!(listener.accept(), Err(AcceptError::NothingToAccept)));

    let state = accepted.finalize(|deps: &mut Host| deps.by = TimerRegisteredBy::Parent);
    assert_eq!(state.state(), StateTag::Established);
    assert_eq!(state.local_remote_addrs(), Some((local(), peer())));
    assert!(state.poll().contains(PollState::ESTABLISHED));
    assert!(state.poll().contains(PollState::WRITABLE));
    // the timer of the child was set through the forked object
    assert_eq!(host.timers.borrow()[0].2, TimerRegisteredBy::Child);
}

#[test]
fn out_of_order_data_is_reassembled() {
    let host = host_at(0);
    let (mut state, iss) = established(&host, 99, true);
    let snd = iss.wrapping_add(1);

    let late = segment(peer(), local(), TcpFlags::ACK, 200, snd);
    state.push_packet(&late, Bytes::from(pattern(200, 250))).unwrap();
    // nothing is readable, and the block is reported at once
    let mut sink = Vec::new();
    assert!(matches!(state.recv(&mut sink, 150), Err(RecvError::Empty)));
    let (ack, payload) = state.pop_packet().unwrap();
    assert!(payload.is_empty());
    assert_eq!(ack.flags.bits(), TcpFlags::ACK);
    assert_eq!(ack.ack, 100);
    let blocks = ack.selective_acks.unwrap();
    assert_eq!(blocks.len(), 1);
    assert_eq!(blocks.get(0), (200, 250));

    let first = segment(peer(), local(), TcpFlags::ACK, 100, snd);
    state.push_packet(&first, Bytes::from(pattern(100, 200))).unwrap();
    let (ack, _) = state.pop_packet().unwrap();
    assert_eq!(ack.ack, 250);
    assert_eq!(ack.selective_acks, None);

    assert_eq!(state.recv(&mut sink, 150).unwrap(), 150);
    assert_eq!(sink, pattern(100, 250));
    assert!(matches!(state.recv(&mut sink, 150), Err(RecvError::Empty)));
}

#[test]
fn retransmission_resends_the_oldest_segment_and_doubles_the_timeout() {
    let host = host_at(0);
    let (mut state, iss) = established(&host, 99, false);
    host.timers.borrow_mut().clear();
    host.clock.set(10);

    let data = pattern(0, 1000);
    assert_eq!(state.send(&data, 1000).unwrap(), 1000);
    let (first, first_payload) = state.pop_packet().unwrap();
    let (second, second_payload) = state.pop_packet().unwrap();
    assert!(matches!(state.pop_packet(), Err(PopPacketError::NoPacket)));
    assert_eq!(first.seq, iss.wrapping_add(1));
    assert_eq!(&first_payload[..], &data[..536]);
    assert_eq!(second.seq, iss.wrapping_add(537));
    assert_eq!(&second_payload[..], &data[536..]);
    assert!(second.flags.contains(TcpFlags::PSH));
    assert!(!first.flags.contains(TcpFlags::PSH));

    // one retransmission timer, one second after the first segment went out
    let timer = {
        let timers = host.timers.borrow();
        assert_eq!(timers.len(), 1);
        assert_eq!(timers[0].0, 1010);
        assert_eq!(timers[0].1.kind, TimerKind::Retransmit);
        timers[0].1
    };
    host.timers.borrow_mut().clear();

    host.clock.set(1010);
    state.on_timer(&timer, TimerRegisteredBy::Parent);
    let (again, again_payload) = state.pop_packet().unwrap();
    assert!(matches!(state.pop_packet(), Err(PopPacketError::NoPacket)));
    assert_eq!(again.seq, first.seq);
    assert_eq!(again_payload, first_payload);
    // the timeout has doubled
    let timers = host.timers.borrow();
    assert_eq!(timers.len(), 1);
    assert_eq!(timers[0].0, 1010 + 2000);
    let tcb = state.control_block().unwrap();
    assert_eq!(tcb.rtt.rto, 2000);
    assert_eq!(tcb.rto_deadline, Some(3010));
    assert_eq!(tcb.state, StateTag::Established);
}

#[test]
fn passive_close() {
    let host = host_at(0);
    let (mut state, iss) = established(&host, 99, false);
    let snd = iss.wrapping_add(1);

    let fin = segment(peer(), local(), TcpFlags::FIN | TcpFlags::ACK, 100, snd);
    state.push_packet(&fin, Bytes::new()).unwrap();
    assert_eq!(state.state(), StateTag::CloseWait);
    assert!(state.poll().contains(PollState::RECV_CLOSED));
    assert!(state.poll().contains(PollState::READABLE));
    let mut sink = Vec::new();
    assert!(matches!(state.recv(&mut sink, 10), Err(RecvError::StreamClosed)));
    let (ack, _) = state.pop_packet().unwrap();
    assert_eq!(ack.flags.bits(), TcpFlags::ACK);
    assert_eq!(ack.ack, 101);

    state.close().unwrap();
    assert_eq!(state.state(), StateTag::LastAck);
    assert!(state.poll().contains(PollState::SEND_CLOSED));
    let (our_fin, _) = state.pop_packet().unwrap();
    assert_eq!(our_fin.flags.bits(), TcpFlags::FIN | TcpFlags::ACK);
    assert_eq!(our_fin.seq, snd);

    let last = segment(peer(), local(), TcpFlags::ACK, 101, snd.wrapping_add(1));
    state.push_packet(&last, Bytes::new()).unwrap();
    assert_eq!(state.state(), StateTag::Closed);
    assert!(state.poll().contains(PollState::CLOSED));
    assert_eq!(state.clear_error(), None);
}

#[test]
fn time_wait_times_out() {
    let host = host_at(0);
    let (mut state, iss) = established(&host, 99, false);
    let snd = iss.wrapping_add(1);
    host.clock.set(7);

    state.close().unwrap();
    assert_eq!(state.state(), StateTag::FinWaitOne);
    let (our_fin, _) = state.pop_packet().unwrap();
    assert!(our_fin.flags.contains(TcpFlags::FIN));

    let ack = segment(peer(), local(), TcpFlags::ACK, 100, snd.wrapping_add(1));
    state.push_packet(&ack, Bytes::new()).unwrap();
    assert_eq!(state.state(), StateTag::FinWaitTwo);

    host.timers.borrow_mut().clear();
    let fin = segment(peer(), local(), TcpFlags::FIN | TcpFlags::ACK, 100, snd.wrapping_add(1));
    state.push_packet(&fin, Bytes::new()).unwrap();
    assert_eq!(state.state(), StateTag::TimeWait);
    let timer = {
        let timers = host.timers.borrow();
        assert_eq!(timers.len(), 1);
        assert_eq!(timers[0].0, 7 + 120_000);
        assert_eq!(timers[0].1.kind, TimerKind::TimeWait);
        timers[0].1
    };

    host.clock.set(7 + 120_000);
    state.on_timer(&timer, TimerRegisteredBy::Parent);
    assert_eq!(state.state(), StateTag::Closed);
    assert!(state.poll().contains(PollState::CLOSED));
}

#[test]
fn handshake_then_transfer_delivers_the_bytes() {
    let client_host = host_at(3);
    let server_host = host_at(900);
    let server_addr = endpoint(10, 0, 0, 1, 80);
    let client_addr = endpoint(10, 0, 0, 9, 5555);

    let mut client = TcpState::new(client_host.clone());
    let mut listener = TcpState::new(server_host.clone());
    listener.listen(4, || Ok::<_, ()>(())).unwrap();
    client.connect(server_addr, || Ok::<_, ()>((client_addr, 17))).unwrap();

    let (syn, p) = client.pop_packet().unwrap();
    listener.push_packet(&syn, p).unwrap();
    let (syn_ack, p) = listener.pop_packet().unwrap();
    client.push_packet(&syn_ack, p).unwrap();
    assert_eq!(client.state(), StateTag::Established);
    let (ack, p) = client.pop_packet().unwrap();
    listener.push_packet(&ack, p).unwrap();
    let mut server = listener
        .accept()
        .unwrap()
        .finalize(|deps: &mut Host| deps.by = TimerRegisteredBy::Parent);
    assert_eq!(server.state(), StateTag::Established);
    // both sides took up the options
    assert_eq!(syn_ack.window_scale, Some(3));
    assert!(ack.timestamp.is_some());
    assert_eq!(ack.timestamp_echo, syn_ack.timestamp);

    let data = pattern(0, 5000);
    assert_eq!(client.send(&data, data.len()).unwrap(), 5000);
    let mut received = Vec::new();
    let mut rounds = 0;
    while received.len() < data.len() {
        rounds += 1;
        assert!(rounds < 100);
        while let Ok((h, p)) = client.pop_packet() {
            server.push_packet(&h, p).unwrap();
        }
        while let Ok((h, p)) = server.pop_packet() {
            client.push_packet(&h, p).unwrap();
        }
        let _ = server.recv(&mut received, 10_000);
    }
    assert_eq!(received, data);
}

#[test]
fn double_close_stays_beyond_fin_wait_one() {
    let host = host_at(0);
    let (mut state, _) = established(&host, 99, false);
    assert!(state.close().is_ok());
    assert_eq!(state.state(), StateTag::FinWaitOne);
    assert!(matches!(state.close(), Err(CloseError::InvalidState)));
    assert_eq!(state.state(), StateTag::FinWaitOne);
}

#[test]
fn clear_error_returns_a_latched_error_once() {
    let host = host_at(0);
    let (mut state, iss) = established(&host, 99, false);
    let rst = segment(peer(), local(), TcpFlags::RST, 100, iss.wrapping_add(1));
    state.push_packet(&rst, Bytes::new()).unwrap();
    assert_eq!(state.state(), StateTag::Closed);
    assert!(state.poll().contains(PollState::ERROR));
    assert_eq!(state.clear_error(), Some(TcpError::ResetReceived));
    assert_eq!(state.clear_error(), None);
    assert!(!state.poll().contains(PollState::ERROR));
}

#[test]
fn reset_outside_the_window_is_dropped() {
    let host = host_at(0);
    let (mut state, iss) = established(&host, 99, false);
    // the window is 262144 bytes from 100 on
    let rst = segment(peer(), local(), TcpFlags::RST, 100 + 262_144, iss.wrapping_add(1));
    state.push_packet(&rst, Bytes::new()).unwrap();
    assert_eq!(state.state(), StateTag::Established);
    assert_eq!(state.clear_error(), None);
    assert!(!state.wants_to_send());
    let before = segment(peer(), local(), TcpFlags::RST, 99, iss.wrapping_add(1));
    state.push_packet(&before, Bytes::new()).unwrap();
    assert_eq!(state.state(), StateTag::Established);
    assert_eq!(state.clear_error(), None);
}

#[test]
fn closed_stays_closed() {
    let host = host_at(0);
    let (mut state, iss) = established(&host, 99, false);
    let rst = segment(peer(), local(), TcpFlags::RST, 100, iss.wrapping_add(1));
    state.push_packet(&rst, Bytes::new()).unwrap();
    assert_eq!(state.state(), StateTag::Closed);

    assert!(matches!(state.close(), Err(CloseError::InvalidState)));
    assert!(matches!(state.listen(1, || Ok::<_, ()>(())), Err(ListenError::InvalidState)));
    assert!(matches!(
        state.connect(peer(), || Ok::<_, ()>((local(), ()))),
        Err(ConnectError::InvalidState)
    ));
    assert!(matches!(state.accept(), Err(AcceptError::InvalidState)));
    assert!(matches!(state.send(&[1, 2, 3], 3), Err(SendError::InvalidState)));
    let mut sink = Vec::new();
    assert!(matches!(state.recv(&mut sink, 3), Err(RecvError::InvalidState)));
    let syn = segment(peer(), local(), TcpFlags::SYN, 5, 0);
    assert!(matches!(state.push_packet(&syn, Bytes::new()), Err(PushPacketError::InvalidState)));
    assert!(matches!(state.pop_packet(), Err(PopPacketError::NoPacket)));
    let timer = Timer { kind: TimerKind::Retransmit, at: 0, local: local(), remote: peer() };
    state.on_timer(&timer, TimerRegisteredBy::Parent);
    assert_eq!(state.state(), StateTag::Closed);
}

#[test]
fn accept_queue_never_exceeds_the_backlog() {
    let host = host_at(0);
    let mut listener = TcpState::new(host.clone());
    listener.listen(2, || Ok::<_, ()>(())).unwrap();
    for port in 0..5u16 {
        let src = endpoint(10, 0, 0, 2, 1000 + port);
        let syn = segment(src, local(), TcpFlags::SYN, 7, 0);
        listener.push_packet(&syn, Bytes::new()).unwrap();
    }
    // two SYNs were answered, three were dropped without an answer
    let mut answered = Vec::new();
    while let Ok((h, _)) = listener.pop_packet() {
        assert_eq!(h.flags.bits(), TcpFlags::SYN | TcpFlags::ACK);
        answered.push(h);
    }
    assert_eq!(answered.len(), 2);
    assert_eq!(answered[0].dst_port, 1000);
    assert_eq!(answered[1].dst_port, 1001);
    for h in answered.iter().rev() {
        let ack = segment(h.dst(), h.src(), TcpFlags::ACK, 8, h.seq.wrapping_add(1));
        listener.push_packet(&ack, Bytes::new()).unwrap();
    }
    // the queue is first in, first out by completion
    let first = listener.accept().unwrap();
    assert_eq!(first.remote_addr().port, 1001);
    let second = listener.accept().unwrap();
    assert_eq!(second.remote_addr().port, 1000);
    assert!(matches!(listener.accept(), Err(AcceptError::NothingToAccept)));
}

#[test]
fn wants_to_send_implies_pop_succeeds() {
    let host = host_at(0);
    let (mut state, _) = established(&host, 99, false);
    assert!(!state.wants_to_send());
    assert!(matches!(state.pop_packet(), Err(PopPacketError::NoPacket)));
    state.send(&pattern(0, 2000), 2000).unwrap();
    let mut popped = 0;
    while state.wants_to_send() {
        assert!(state.pop_packet().is_ok());
        popped += 1;
    }
    assert_eq!(popped, 4);
    assert!(matches!(state.pop_packet(), Err(PopPacketError::NoPacket)));
}

#[test]
fn stale_timers_change_nothing() {
    let host = host_at(0);
    let (mut state, iss) = established(&host, 99, false);
    host.timers.borrow_mut().clear();
    state.send(&pattern(0, 100), 100).unwrap();
    let (data, _) = state.pop_packet().unwrap();
    let timer = host.timers.borrow()[0].1;
    // everything is acknowledged before the timer fires
    let ack = segment(peer(), local(), TcpFlags::ACK, 100, data.seq.wrapping_add(100));
    state.push_packet(&ack, Bytes::new()).unwrap();
    host.timers.borrow_mut().clear();
    host.clock.set(5000);
    state.on_timer(&timer, TimerRegisteredBy::Parent);
    assert!(!state.wants_to_send());
    assert_eq!(state.state(), StateTag::Established);
    assert!(host.timers.borrow().is_empty());
    // a timer for another connection, and one with the wrong tag
    let other = Timer { kind: TimerKind::TimeWait, at: 0, local: local(), remote: local() };
    state.on_timer(&other, TimerRegisteredBy::Parent);
    state.on_timer(&timer, TimerRegisteredBy::Child);
    assert_eq!(state.state(), StateTag::Established);
    assert_eq!(iss, iss);
}

#[test]
fn send_sequence_stays_within_the_window() {
    let host = host_at(0);
    let (mut state, iss) = established(&host, 99, false);
    // the peer's window is 1000 bytes
    let mut update = segment(peer(), local(), TcpFlags::ACK, 100, iss.wrapping_add(1));
    update.window_size = 1000;
    state.push_packet(&update, Bytes::new()).unwrap();
    state.send(&pattern(0, 3000), 3000).unwrap();
    let mut sent = 0;
    while let Ok((h, p)) = state.pop_packet() {
        assert_eq!(h.seq, iss.wrapping_add(1).wrapping_add(sent));
        sent += p.len() as u32;
    }
    assert_eq!(sent, 1000);
    // an acknowledgment opens the window again
    let mut ack = segment(peer(), local(), TcpFlags::ACK, 100, iss.wrapping_add(1001));
    ack.window_size = 1000;
    state.push_packet(&ack, Bytes::new()).unwrap();
    while let Ok((_, p)) = state.pop_packet() {
        sent += p.len() as u32;
    }
    assert_eq!(sent, 2000);
}

#[test]
fn large_transfer_needs_acknowledgments_and_reads() {
    let client_host = host_at(0);
    let server_host = host_at(0);
    let server_addr = endpoint(10, 0, 0, 1, 80);
    let client_addr = endpoint(10, 0, 0, 9, 5555);
    let mut client = TcpState::new(client_host.clone());
    let mut listener = TcpState::new(server_host.clone());
    listener.listen(1, || Ok::<_, ()>(())).unwrap();
    client.connect(server_addr, || Ok::<_, ()>((client_addr, ()))).unwrap();
    let (syn, p) = client.pop_packet().unwrap();
    listener.push_packet(&syn, p).unwrap();
    let (syn_ack, p) = listener.pop_packet().unwrap();
    client.push_packet(&syn_ack, p).unwrap();
    let (ack, p) = client.pop_packet().unwrap();
    listener.push_packet(&ack, p).unwrap();
    let mut server = listener
        .accept()
        .unwrap()
        .finalize(|deps: &mut Host| deps.by = TimerRegisteredBy::Parent);

    // more than both buffers hold, so the sender has to wait for the reader
    let data = pattern(0, 1_000_000);
    let mut offered = 0;
    let mut received = Vec::new();
    let mut rounds = 0;
    while received.len() < data.len() {
        rounds += 1;
        assert!(rounds < 10_000);
        if offered < data.len() {
            if let Ok(n) = client.send(&data[offered..], data.len() - offered) {
                offered += n;
            }
        }
        while let Ok((h, p)) = client.pop_packet() {
            server.push_packet(&h, p).unwrap();
        }
        let _ = server.recv(&mut received, 100_000);
        while let Ok((h, p)) = server.pop_packet() {
            client.push_packet(&h, p).unwrap();
        }
    }
    assert_eq!(received.len(), data.len());
    assert!(received == data);

    // and the same connection closes in order
    client.close().unwrap();
    while let Ok((h, p)) = client.pop_packet() {
        server.push_packet(&h, p).unwrap();
    }
    assert_eq!(server.state(), StateTag::CloseWait);
    let mut sink = Vec::new();
    assert!(matches!(server.recv(&mut sink, 10), Err(RecvError::StreamClosed)));
    server.close().unwrap();
    while let Ok((h, p)) = server.pop_packet() {
        client.push_packet(&h, p).unwrap();
    }
    assert_eq!(client.state(), StateTag::TimeWait);
    while let Ok((h, p)) = client.pop_packet() {
        server.push_packet(&h, p).unwrap();
    }
    assert_eq!(server.state(), StateTag::Closed);
}

#[test]
fn segments_may_be_lost_repeated_and_reordered() {
    let client_host = host_at(0);
    let server_host = host_at(0);
    let server_addr = endpoint(10, 0, 0, 1, 80);
    let client_addr = endpoint(10, 0, 0, 9, 5555);
    let mut client = TcpState::new(client_host.clone());
    let mut listener = TcpState::new(server_host.clone());
    listener.listen(1, || Ok::<_, ()>(())).unwrap();
    client.connect(server_addr, || Ok::<_, ()>((client_addr, ()))).unwrap();
    let (syn, p) = client.pop_packet().unwrap();
    listener.push_packet(&syn, p).unwrap();
    let (syn_ack, p) = listener.pop_packet().unwrap();
    client.push_packet(&syn_ack, p).unwrap();
    let (ack, p) = client.pop_packet().unwrap();
    listener.push_packet(&ack, p).unwrap();
    let mut server = listener
        .accept()
        .unwrap()
        .finalize(|deps: &mut Host| deps.by = TimerRegisteredBy::Parent);
    client_host.timers.borrow_mut().clear();

    let data = pattern(0, 20_000);
    client.send(&data, data.len()).unwrap();
    let mut received = Vec::new();
    let mut rounds: u64 = 0;
    while received.len() < data.len() {
        rounds += 1;
        assert!(rounds < 1000);
        let mut segments = Vec::new();
        while let Ok(segment) = client.pop_packet() {
            segments.push(segment);
        }
        // every third segment is lost, the others arrive last first and twice
        let mut kept: Vec<_> = segments
            .into_iter()
            .enumerate()
            .filter(|(i, _)| (*i as u64 + rounds) % 3 != 0)
            .map(|(_, s)| s)
            .collect();
        kept.reverse();
        for (h, p) in kept {
            server.push_packet(&h, p.clone()).unwrap();
            server.push_packet(&h, p).unwrap();
        }
        let before = received.len();
        let _ = server.recv(&mut received, 3000);
        assert_eq!(&received[before..], &data[before..received.len()]);
        while let Ok((h, p)) = server.pop_packet() {
            client.push_packet(&h, p).unwrap();
        }
        // the retransmission timer fires
        let due: Vec<_> = client_host.timers.borrow_mut().drain(..).collect();
        for (at, timer, by) in due {
            if client_host.clock.get() < at {
                client_host.clock.set(at);
            }
            client.on_timer(&timer, by);
        }
    }
    assert!(received == data);
}

#[test]
fn first_steps_with_the_engine() {
    #[derive(Default)]
    struct Quiet {
        timers: RefCell<Vec<(u64, Timer)>>,
    }

    impl Dependencies for Quiet {
        fn register_timer(&self, time: u64, timer: Timer) {
            self.timers.borrow_mut().push((time, timer));
        }

        fn current_time(&self) -> u64 {
            0
        }

        fn fork(&self) -> Self {
            Quiet::default()
        }
    }

    let mut state = TcpState::new(Quiet::default());
    let dst = Endpoint { ip: 0x7F00_0001, port: 80 };
    state
        .connect(dst, || {
            let bind = Endpoint { ip: 0x7F00_0001, port: 2532 };
            Ok::<_, ()>((bind, ()))
        })
        .unwrap();
    let (header, _payload) = state.pop_packet().unwrap();
    assert!(header.flags.contains(TcpFlags::SYN));
    assert_eq!(header.dst(), dst);
}

#[test]
fn finalize_calls_the_function_once_on_the_forked_object() {
    let host = host_at(0);
    let (mut listener, _) = listener_with_child(&host, 99, false);
    let accepted = listener.accept().unwrap();
    let calls = Cell::new(0);
    let mut seen = None;
    let mut state = accepted.finalize(|deps: &mut Host| {
        calls.set(calls.get() + 1);
        seen = Some(deps.by);
        deps.by = TimerRegisteredBy::Parent;
        deps.clock = Rc::new(Cell::new(5000));
    });
    assert_eq!(calls.get(), 1);
    // the object is the one that the listener forked for the child
    assert_eq!(seen, Some(TimerRegisteredBy::Child));
    // and the state holds it as the function has left it: it reads the new clock and
    // sets its timers as its own
    host.timers.borrow_mut().clear();
    state.send(&[1, 2, 3], 3).unwrap();
    let (segment, _) = state.pop_packet().unwrap();
    assert_eq!(segment.flags.bits(), TcpFlags::PSH | TcpFlags::ACK);
    let timers = host.timers.borrow();
    assert_eq!(timers.len(), 1);
    assert_eq!(timers[0].2, TimerRegisteredBy::Parent);
    assert_eq!(timers[0].0, 5000 + 1000);
}

#[test]
fn every_timer_that_is_asked_for_is_registered_with_its_instant() {
    let host = host_at(10);
    let mut state = TcpState::new(host.clone());
    state
        .connect(endpoint(10, 0, 0, 1, 80), || Ok::<_, ()>((endpoint(10, 0, 0, 9, 5555), ())))
        .unwrap();
    let timers = host.timers.borrow();
    assert_eq!(timers.len(), 1);
    let (time, timer, by) = timers[0];
    assert_eq!(time, timer.at);
    assert_eq!((timer.kind, timer.at, by), (TimerKind::Retransmit, 1010, TimerRegisteredBy::Parent));
    assert_eq!((timer.local, timer.remote), (endpoint(10, 0, 0, 9, 5555), endpoint(10, 0, 0, 1, 80)));
}

/// A connection through a listener, one `send` of `n` bytes, and three passes of the host:
/// from the client, back to it, and from it again. Gives what was sent, what the accepted
/// side then reads in pieces of `piece` bytes, and what the read after the last gives.
fn session_of(n: usize, piece: usize) -> (Vec<u8>, Vec<u8>, Result<usize, RecvError>) {
    let client_host = host_at(3);
    let server_host = host_at(900);
    let server_addr = endpoint(10, 0, 0, 1, 80);
    let client_addr = endpoint(10, 0, 0, 9, 5555);

    let mut client = TcpState::new(client_host.clone());
    let mut listener = TcpState::new(server_host.clone());
    listener.listen(1, || Ok::<_, ()>(())).unwrap();
    client.connect(server_addr, || Ok::<_, ()>((client_addr, ()))).unwrap();
    let (syn, p) = client.pop_packet().unwrap();
    listener.push_packet(&syn, p).unwrap();
    let (syn_ack, p) = listener.pop_packet().unwrap();
    client.push_packet(&syn_ack, p).unwrap();
    let (ack, p) = client.pop_packet().unwrap();
    listener.push_packet(&ack, p).unwrap();
    let mut server = listener.accept().unwrap().finalize(|_deps: &mut Host| ());
    assert_eq!(listener.state(), StateTag::Listen);
    assert!(matches!(listener.accept(), Err(AcceptError::NothingToAccept)));

    let data = pattern(0, n);
    assert_eq!(client.send(&data, n).unwrap(), n);
    while let Ok((h, p)) = client.pop_packet() {
        server.push_packet(&h, p).unwrap();
    }
    while let Ok((h, p)) = server.pop_packet() {
        client.push_packet(&h, p).unwrap();
    }
    while let Ok((h, p)) = client.pop_packet() {
        server.push_packet(&h, p).unwrap();
    }

    let mut received = Vec::new();
    while received.len() < n {
        let before = received.len();
        let got = server.recv(&mut received, piece).unwrap();
        assert_eq!(received.len(), before + got);
        assert_eq!(got, piece.min(n - before));
    }
    let after = server.recv(&mut received, piece);
    (data, received, after)
}

#[test]
fn session_through_a_listener_delivers_one_byte() {
    let (data, received, after) = session_of(1, 1);
    assert_eq!(received, data);
    assert!(matches!(after, Err(RecvError::Empty)));
}

#[test]
fn session_through_a_listener_delivers_all_but_eight_bytes_of_a_buffer() {
    let (data, received, after) = session_of(262_144 - 8, 1000);
    assert_eq!(received.len(), 262_136);
    assert_eq!(received, data);
    assert!(matches!(after, Err(RecvError::Empty)));
}

#[test]
fn session_through_a_listener_delivers_a_whole_buffer() {
    let (data, received, after) = session_of(262_144, 70_000);
    assert_eq!(received.len(), 262_144);
    assert_eq!(received, data);
    assert!(matches!(after, Err(RecvError::Empty)));
}
