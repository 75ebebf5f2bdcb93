//! The driver's tables, streams and pending packets.
use frp_core::addr::{IpAddr, SocketAddr};
use frp_core::kcp::config::{default_kcp_config, KcpConfig};
use frp_core::kcp::listener::{conv_of_draw, draw_conv};
use frp_core::kcp::socket::{
    Admission, KcpSocket, PendingUdp, Route, SessionKey, MAX_PENDING_UDP,
    MAX_SESSION_CREATES_PER_IP_PER_WINDOW, SESSION_CREATE_WINDOW_MS, UNACCEPTED_SESSION_TIMEOUT_MS,
};
use frp_core::kcp::stream::{
    Arrived, Ask, Handed, KcpStream, ReadStep, Seen, Step, StreamError, WritePoint,
};

fn plain() -> KcpConfig {
    KcpConfig { data_shards: 0, parity_shards: 0, ..default_kcp_config() }
}

fn peer(last: u8, port: u16) -> SocketAddr {
    SocketAddr { ip: IpAddr::V4(10, 0, 0, last), port }
}

/// A packet that opens a conversation without forward error correction.
fn push(conv: u32) -> Vec<u8> {
    let mut pkt = vec![0u8; 24];
    pkt[0..4].copy_from_slice(&conv.to_le_bytes());
    pkt[4] = 0x51;
    pkt[6..8].copy_from_slice(&128u16.to_le_bytes());
    pkt
}

/// The rate-limit trim uses `now.wrapping_sub(ts) > WINDOW` (same
/// convention as `session_created_at` cleanup) so the u32-ms clock's
/// 2^32-ms (~49.7-day) wrap cannot wedge the creation logs full and
/// permanently reject new sessions. Verify the arithmetic both before
/// and after the wrap.
#[test]
fn rate_window_age_handles_u32_wrap() {
    let window = SESSION_CREATE_WINDOW_MS;
    // Before wrap: 5 s before wrap, timestamps recorded 3 s / 60 s earlier.
    let now = u32::MAX - 5_000;
    let fresh = now - 3_000; // 3 s old → inside window
    assert!(now.wrapping_sub(fresh) <= window);
    let old = now - 60_000; // 60 s old → outside window
    assert!(now.wrapping_sub(old) > window);

    // After wrap: clock wrapped to 5 s; ts recorded 1 s before the wrap
    // (~6 s elapsed) and 60 s before the wrap (~65 s elapsed).
    let now_wrapped = 5_000u32;
    let just_before_wrap = u32::MAX - 1_000;
    assert!(now_wrapped.wrapping_sub(just_before_wrap) <= window);
    let long_ago = u32::MAX - 60_000;
    assert!(now_wrapped.wrapping_sub(long_ago) > window);
}

#[test]
fn creations_are_limited_per_address_and_the_limit_passes() {
    let mut t = KcpSocket::new(plain());
    let start = u32::MAX - 100;
    let mut granted = 0usize;
    for i in 0..100u32 {
        let key = KcpSocket::resolve_key(&push(i + 1), peer(1, 1000 + i as u16));
        if matches!(t.judge(key, 24, start), Admission::Admitted) {
            let s = t.open_session(key, &push(i + 1)).unwrap();
            t.admit_session(key, s, start);
            granted += 1;
        }
    }
    assert_eq!(granted, MAX_SESSION_CREATES_PER_IP_PER_WINDOW);
    assert_eq!(t.session_count(), granted);
    // Another address is not held back.
    let key = KcpSocket::resolve_key(&push(500), peer(2, 1));
    assert!(matches!(t.judge(key, 24, start), Admission::Admitted));
    // After the window, across the wrap of the clock, the first address may
    // open sessions again.
    let later = start.wrapping_add(SESSION_CREATE_WINDOW_MS + 1);
    let key = KcpSocket::resolve_key(&push(600), peer(1, 9));
    assert!(matches!(t.judge(key, 24, later), Admission::Admitted));
}

#[test]
fn packets_reach_the_session_of_their_peer() {
    let mut t = KcpSocket::new(plain());
    let key = KcpSocket::resolve_key(&push(7), peer(1, 1));
    assert_eq!(key, SessionKey { conv: 7, peer: peer(1, 1) });
    assert!(matches!(t.route(&push(7), peer(1, 1)), Route::NewPeer(_)));
    let s = t.open_session(key, &push(7)).unwrap();
    t.admit_session(key, s, 0);
    assert!(matches!(t.route(&push(7), peer(1, 1)), Route::Deliver(k) if k == key));
    // The same conversation of another peer is another session.
    assert!(!matches!(t.route(&push(7), peer(2, 1)), Route::Deliver(_)));
    assert!(t.remove_session(key));
    assert_eq!(t.session_count(), 0);
    assert!(!matches!(t.route(&push(7), peer(1, 1)), Route::Deliver(_)));
}

#[test]
fn sessions_that_nobody_accepts_expire() {
    let mut t = KcpSocket::new(plain());
    let a = KcpSocket::resolve_key(&push(1), peer(1, 1));
    let b = KcpSocket::resolve_key(&push(2), peer(1, 2));
    let s = t.open_session(a, &push(1)).unwrap();
    t.admit_session(a, s, 0);
    let s = t.open_session(b, &push(2)).unwrap();
    t.admit_session(b, s, 0);
    t.accepted(b);
    assert!(t.expire(UNACCEPTED_SESSION_TIMEOUT_MS).is_empty());
    assert_eq!(t.expire(UNACCEPTED_SESSION_TIMEOUT_MS + 1), vec![a]);
    assert_eq!(t.session_count(), 1);
}

#[test]
fn pending_packets_are_kept_in_order_up_to_a_limit() {
    let mut p = PendingUdp::new();
    for i in 0..MAX_PENDING_UDP + 5 {
        p.keep(peer(1, 1), vec![(i % 256) as u8]);
    }
    assert_eq!(p.len(), MAX_PENDING_UDP);
    let (to, bytes) = p.take().unwrap();
    assert_eq!(to, peer(1, 1));
    assert_eq!(bytes.len(), 1);
}

#[test]
fn conversations_are_never_zero() {
    assert_eq!(conv_of_draw(0), None);
    assert_eq!(conv_of_draw(5), Some(5));
    for _ in 0..32 {
        if let Some(c) = draw_conv() {
            assert_ne!(c, 0);
        }
    }
    let a: Vec<Option<u32>> = (0..8).map(|_| draw_conv()).collect();
    assert!(a.iter().any(|c| *c != a[0]), "draws differ");
}

#[test]
fn streams_hand_out_frames_bit_by_bit() {
    let mut s = KcpStream::new(9, peer(1, 1));
    assert_eq!(s.conv(), 9);
    assert_eq!(s.peer_addr(), peer(1, 1));
    assert!(matches!(s.poll_read(None, true, 2), ReadStep::Ask));
    let frame = Some(Arrived::Frame(b"hello".to_vec()));
    assert_eq!(given(s.poll_read(frame, true, 2)), b"he".to_vec());
    assert_eq!(given(s.poll_read(None, true, 2)), b"ll".to_vec());
    assert_eq!(given(s.poll_read(None, false, 9)), b"o".to_vec());
    assert_eq!(s.read_count(), 5);
    assert!(matches!(s.poll_read(None, true, 2), ReadStep::Ask));
}

fn given(step: ReadStep) -> Vec<u8> {
    match step {
        ReadStep::Give(bytes) => bytes,
        _ => panic!("no bytes"),
    }
}

#[test]
fn readers_without_data_are_told_why() {
    let mut s = KcpStream::new(9, peer(1, 1));
    assert!(matches!(s.poll_read(Some(Arrived::Closed), true, 2), ReadStep::Eof));
    assert!(matches!(s.poll_read(Some(Arrived::Closed), false, 2), ReadStep::Failed));
    assert!(matches!(s.poll_read(Some(Arrived::Nothing), true, 2), ReadStep::Pending));
    assert!(matches!(s.poll_read(Some(Arrived::Nothing), false, 2), ReadStep::Failed));
}

#[test]
fn writes_pass_both_gates() {
    let mut s = KcpStream::new(9, peer(1, 1));
    let begin = s.poll_write(5, WritePoint::Begin, Seen::Alive(true));
    assert_eq!(begin, Step::Next(WritePoint::QueueGate, Ask::ReadQueue));
    let queue = s.poll_write(5, WritePoint::QueueGate, Seen::Length(199));
    assert_eq!(queue, Step::Next(WritePoint::BacklogGate, Ask::ReadBacklog));
    let backlog = s.poll_write(5, WritePoint::BacklogGate, Seen::Length(2047));
    assert_eq!(backlog, Step::Next(WritePoint::Sending, Ask::Hand));
    let done = s.poll_write(5, WritePoint::Sending, Seen::Handed(Handed::Taken));
    assert_eq!(done, Step::Done(5));
    assert_eq!(s.write_count(), 5);
}

#[test]
fn writes_wait_at_full_gates() {
    let mut s = KcpStream::new(9, peer(1, 1));
    let queue = s.poll_write(5, WritePoint::QueueGate, Seen::Length(200));
    assert_eq!(queue, Step::Next(WritePoint::QueueParked, Ask::ParkOnQueue));
    assert_eq!(s.poll_write(5, WritePoint::QueueParked, Seen::Ready(false)), Step::Wait);
    // The next call first asks whether what it waits for has come.
    let begin = s.poll_write(5, WritePoint::Begin, Seen::Alive(true));
    assert_eq!(begin, Step::Next(WritePoint::Resumed, Ask::PollParked));
    let resumed = s.poll_write(5, WritePoint::Resumed, Seen::Ready(true));
    assert_eq!(resumed, Step::Next(WritePoint::QueueGate, Ask::ReadQueue));
    let backlog = s.poll_write(5, WritePoint::BacklogGate, Seen::Length(2048));
    assert_eq!(backlog, Step::Next(WritePoint::BacklogParked, Ask::ParkOnBacklog));
    let full = s.poll_write(5, WritePoint::Sending, Seen::Handed(Handed::Full));
    assert_eq!(full, Step::WaitOnQueue);
    assert_eq!(s.write_count(), 0);
}

#[test]
fn writes_fail_for_a_reason() {
    let mut s = KcpStream::new(9, peer(1, 1));
    let gone = s.poll_write(5, WritePoint::Begin, Seen::Alive(false));
    assert_eq!(gone, Step::Failed(StreamError::SessionRemoved));
    let closed = s.poll_write(5, WritePoint::Sending, Seen::Handed(Handed::Closed));
    assert_eq!(closed, Step::Failed(StreamError::DriverClosed));
    s.poll_shutdown();
    let shut = s.poll_write(5, WritePoint::Begin, Seen::Alive(true));
    assert_eq!(shut, Step::Failed(StreamError::ShutDown));
}

#[test]
fn flushes_wait_for_their_answer() {
    let mut s = KcpStream::new(9, peer(1, 1));
    let begin = s.poll_flush(WritePoint::Begin, Seen::Alive(true));
    assert_eq!(begin, Step::Next(WritePoint::QueueGate, Ask::ReadQueue));
    let queue = s.poll_flush(WritePoint::QueueGate, Seen::Length(0));
    assert_eq!(queue, Step::Next(WritePoint::Sending, Ask::Hand));
    let sent = s.poll_flush(WritePoint::Sending, Seen::Handed(Handed::Taken));
    assert_eq!(sent, Step::Next(WritePoint::Confirming, Ask::PollConfirm));
    assert_eq!(s.poll_flush(WritePoint::Confirming, Seen::Ready(false)), Step::Wait);
    // No second request goes out while one is on its way.
    let again = s.poll_flush(WritePoint::Begin, Seen::Alive(true));
    assert_eq!(again, Step::Next(WritePoint::Confirming, Ask::PollConfirm));
    assert_eq!(s.poll_flush(WritePoint::Confirming, Seen::Ready(true)), Step::Done(0));
}
