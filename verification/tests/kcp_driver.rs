//! Two drivers that talk to each other.
use frp_core::addr::{IpAddr, SocketAddr};
use frp_core::kcp::config::{default_kcp_config, KcpConfig};
use frp_core::kcp::driver::{Met, Port};
use frp_core::kcp::session::{KcpSession, ReadChannel};
use frp_core::kcp::socket::{
    Admission, KcpSocket, Outgoing, Route, SessionKey, MAX_SESSIONS_PER_IP,
    SESSION_CREATE_WINDOW_MS, UNACCEPTED_SESSION_TIMEOUT_MS,
};
use frp_core::kcp::stream::Handed;

fn server() -> SocketAddr {
    SocketAddr { ip: IpAddr::V4(10, 0, 0, 1), port: 7000 }
}

fn client() -> SocketAddr {
    SocketAddr { ip: IpAddr::V4(10, 0, 0, 2), port: 50000 }
}

fn port() -> Port {
    Port { channel: ReadChannel::new(256), clock_ms: 0 }
}

fn dialer(conv: u32, config: KcpConfig) -> KcpSocket {
    let mut t = KcpSocket::new(config);
    t.register(SessionKey { conv, peer: server() }, KcpSession::new(conv, t.config()));
    t
}

fn sent(out: Option<Outgoing>) -> Vec<Vec<u8>> {
    out.expect("the conversation is there").packets
}

fn received(p: &mut Port) -> Vec<u8> {
    let mut all = Vec::new();
    while let Some(frame) = p.channel.try_recv() {
        all.extend_from_slice(&frame);
    }
    all
}

/// Lets the listener's driver meet a first packet, and answers its offer.
fn meet(b: &mut KcpSocket, packet: &[u8], answer: Handed) -> SessionKey {
    let key = match b.route(packet, client()) {
        Route::NewPeer(key) => key,
        other => panic!("no new peer: {other:?}"),
    };
    match b.meet(key, packet, 0) {
        Met::Offer(s) => b.offered(key, s, answer, 0),
        _ => panic!("no session was made"),
    }
    key
}

fn talk(config: KcpConfig) {
    let mut a = dialer(7, config);
    let mut b = KcpSocket::new(config);
    let packets = sent(a.write(7, b"hello", 0));
    let key = meet(&mut b, &packets[0], Handed::Taken);
    assert_eq!(key, SessionKey { conv: 7, peer: client() });

    let mut ports = vec![port()];
    let tick = b.tick(&mut ports, 10);
    assert_eq!(received(&mut ports[0]), b"hello".to_vec());
    assert_eq!(tick.outgoing.len(), 1);
    assert_eq!(tick.outgoing[0].peer, client());
    assert!(tick.gone.is_empty() && tick.expired.is_empty());

    let reply = sent(b.write(7, b"world", 20));
    let mut way = port();
    for packet in reply {
        let key = match a.route(&packet, server()) {
            Route::Deliver(key) => key,
            other => panic!("not delivered: {other:?}"),
        };
        assert!(a.deliver(key, &packet, &mut way));
    }
    assert_eq!(received(&mut way), b"world".to_vec());
}

#[test]
fn drivers_carry_bytes_both_ways() {
    talk(KcpConfig { data_shards: 0, parity_shards: 0, ..default_kcp_config() });
}

#[test]
fn drivers_carry_bytes_both_ways_with_shards() {
    talk(default_kcp_config());
}

#[test]
fn a_full_listener_enters_no_session() {
    let config = default_kcp_config();
    let packets = sent(dialer(7, config).write(7, b"hello", 0));
    let mut b = KcpSocket::new(config);
    meet(&mut b, &packets[0], Handed::Full);
    assert_eq!(b.session_count(), 0);
    meet(&mut b, &packets[0], Handed::Taken);
    assert_eq!(b.session_count(), 1);
}

/// A session that the listener refuses leaves its sibling alone: one of the
/// same address, here even of the same conversation.
#[test]
fn a_refused_session_leaves_its_sibling_alone() {
    let config = KcpConfig { data_shards: 0, parity_shards: 0, ..default_kcp_config() };
    let packets = sent(dialer(7, config).write(7, b"hello", 0));
    let mut b = KcpSocket::new(config);
    let sibling = meet(&mut b, &packets[0], Handed::Taken);
    let second = SocketAddr { port: 50001, ..client() };
    let key = match b.route(&packets[0], second) {
        Route::NewPeer(key) => key,
        other => panic!("no new peer: {other:?}"),
    };
    match b.meet(key, &packets[0], 0) {
        Met::Offer(s) => b.offered(key, s, Handed::Full, 0),
        _ => panic!("no session was made"),
    }
    assert_eq!(b.session_count(), 1);
    assert_eq!(b.route(&packets[0], client()), Route::Deliver(sibling));
    let reply = b.write(7, b"world", 20).expect("the sibling still writes");
    assert_eq!(reply.peer, client());
    assert!(!reply.packets.is_empty());
}

/// A refused session takes nothing from the count of its address.
#[test]
fn a_refused_session_is_not_counted_down() {
    let config = KcpConfig { data_shards: 0, parity_shards: 0, ..default_kcp_config() };
    let mut b = KcpSocket::new(config);
    let mut now: u32 = 0;
    for conv in 1..=MAX_SESSIONS_PER_IP as u32 {
        let packets = sent(dialer(conv, config).write(conv, b"hello", 0));
        let key = SessionKey { conv, peer: client() };
        match b.meet(key, &packets[0], now) {
            Met::Offer(s) => b.offered(key, s, Handed::Taken, now),
            _ => panic!("no session was made"),
        }
        now += SESSION_CREATE_WINDOW_MS;
        if conv == 10 {
            let other = SessionKey { conv: 1000, peer: client() };
            let first = sent(dialer(1000, config).write(1000, b"hello", 0));
            match b.meet(other, &first[0], now) {
                Met::Offer(s) => b.offered(other, s, Handed::Full, now),
                _ => panic!("no session was made"),
            }
        }
    }
    assert_eq!(b.session_count(), MAX_SESSIONS_PER_IP);
    let last = sent(dialer(2000, config).write(2000, b"hello", 0));
    let key = SessionKey { conv: 2000, peer: client() };
    assert!(matches!(b.meet(key, &last[0], now), Met::Refused(Admission::PeerSessionLimit)));
}

#[test]
fn short_and_garbled_first_packets_open_nothing() {
    let config = KcpConfig { data_shards: 0, parity_shards: 0, ..default_kcp_config() };
    let mut b = KcpSocket::new(config);
    let key = SessionKey { conv: 7, peer: client() };
    assert!(matches!(b.meet(key, &[7, 0, 0, 0], 0), Met::Refused(Admission::TooShort)));
    let mut garbage = vec![0xffu8; 24];
    garbage[0..4].copy_from_slice(&[7, 0, 0, 0]);
    assert!(matches!(b.meet(key, &garbage, 0), Met::Garbage));
    assert_eq!(b.session_count(), 0);
}

#[test]
fn a_session_without_a_reader_goes() {
    let config = default_kcp_config();
    let mut a = dialer(7, config);
    let mut b = KcpSocket::new(config);
    let first = sent(a.write(7, b"hello", 0));
    let key = meet(&mut b, &first[0], Handed::Taken);
    let mut ports = vec![port()];
    ports[0].channel.close();
    let tick = b.tick(&mut ports, 10);
    assert_eq!(tick.gone, vec![key]);
    assert_eq!(b.session_count(), 0);
}

#[test]
fn a_datagram_for_a_reader_that_left_ends_the_session() {
    let config = KcpConfig { data_shards: 0, parity_shards: 0, ..default_kcp_config() };
    let mut a = dialer(7, config);
    let mut b = KcpSocket::new(config);
    let first = sent(a.write(7, b"hello", 0));
    let key = meet(&mut b, &first[0], Handed::Taken);
    let second = sent(a.write(7, b"again", 10));
    let mut way = port();
    way.channel.close();
    assert!(!b.deliver(key, second.last().unwrap(), &mut way));
    assert_eq!(b.session_count(), 0);
}

#[test]
fn a_tick_removes_what_nobody_accepted() {
    let config = default_kcp_config();
    let mut b = KcpSocket::new(config);
    let first = sent(dialer(7, config).write(7, b"hello", 0));
    let key = meet(&mut b, &first[0], Handed::Taken);
    let mut ports = vec![port()];
    let tick = b.tick(&mut ports, UNACCEPTED_SESSION_TIMEOUT_MS + 1);
    assert!(tick.gone.is_empty());
    assert_eq!(tick.expired, vec![key]);
    assert_eq!(b.session_count(), 0);

    meet(&mut b, &first[0], Handed::Taken);
    b.accepted(key);
    let mut ports = vec![port()];
    let tick = b.tick(&mut ports, UNACCEPTED_SESSION_TIMEOUT_MS + 1);
    assert!(tick.expired.is_empty());
    assert_eq!(b.session_count(), 1);
}
