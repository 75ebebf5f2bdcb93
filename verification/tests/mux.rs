//! Multiplexing: settings, silence, drivers and open requests.
use frp_core::clock::Span;
use frp_core::mux::{
    connection_window, first_stream, normalized_keepalive_interval, open_failure, open_step,
    server_step, yamux_config, ActivityState, ClientDriver, ClientEvent, FirstStream, IdleWatch,
    Inbound, Offer, OpenAction, OpenEvent, OpenQueue, Reply, ServerAction, ServerEvent, Settled,
    StopReason, TcpMuxConfig, MAX_PENDING_OPEN_REQUESTS,
};

fn every(secs: u64) -> TcpMuxConfig {
    TcpMuxConfig {
        keepalive_interval: Span { secs, nanos: 0 },
        ..Default::default()
    }
}

#[test]
fn tcp_mux_default_carries_go_6mib_stream_window() {
    let cfg = TcpMuxConfig::default();
    assert_eq!(
        cfg.max_stream_window_size,
        6 * 1024 * 1024,
        "default stream window must match Go frp's 6 MiB"
    );
    let _ycfg = yamux_config(&cfg);
    let small = TcpMuxConfig {
        max_stream_window_size: 1024 * 1024,
        ..Default::default()
    };
    let _ = yamux_config(&small);
    let big = TcpMuxConfig {
        max_stream_window_size: 32 * 1024 * 1024,
        ..Default::default()
    };
    let _ = yamux_config(&big);
    assert_eq!(connection_window(6 * 1024 * 1024), 384 * 1024 * 1024);
    assert_eq!(connection_window(32 * 1024 * 1024), 1024 * 1024 * 1024);
}

#[test]
fn settings_reach_the_configuration() {
    // What the configuration holds shows in its debug form alone.
    let c = format!("{:?}", yamux_config(&every(30)));
    assert!(c.contains("max_num_streams: 1024"), "{c}");
    assert!(c.contains("max_connection_receive_window: Some(402653184)"), "{c}");
    assert!(c.contains("split_send_size: 32768"), "{c}");
}

#[test]
fn a_zero_interval_means_the_default() {
    assert_eq!(normalized_keepalive_interval(Span { secs: 0, nanos: 0 }), Span { secs: 30, nanos: 0 });
    assert_eq!(normalized_keepalive_interval(Span { secs: 0, nanos: 1 }), Span { secs: 0, nanos: 1 });
}

#[test]
fn silence_is_fatal_after_three_intervals_and_thirty_seconds() {
    let mut w = IdleWatch::new(&every(30));
    assert!(!w.tick(false));
    assert!(!w.tick(false));
    assert!(!w.tick(true));
    assert!(!w.tick(false));
    assert!(!w.tick(false));
    assert!(w.tick(false));
    assert_eq!(w.ticks(), 3);

    let mut w = IdleWatch::new(&every(1));
    for _ in 0..29 {
        assert!(!w.tick(false));
    }
    assert!(w.tick(false));
    assert_eq!(w.interval(), Span { secs: 1, nanos: 0 });
}

#[test]
fn activity_is_seen_once() {
    let mut a = ActivityState::new();
    assert!(!a.take());
    a.mark();
    assert!(a.take());
    assert!(!a.take());
}

#[test]
fn spans_multiply_up_to_the_longest() {
    let s = Span { secs: 1, nanos: 600_000_000 };
    assert_eq!(s.times(3), Span { secs: 4, nanos: 800_000_000 });
    assert_eq!(s.times(0), Span { secs: 0, nanos: 0 });
    let long = Span { secs: u64::MAX, nanos: 999_999_999 };
    assert_eq!(long.times(2), long);
    assert!(long.at_least(&s));
    assert!(!s.at_least(&long));
}

#[test]
fn server_driver_follows_its_events() {
    let mut w = IdleWatch::new(&every(30));
    assert_eq!(server_step(&mut w, ServerEvent::Accepted), ServerAction::Offer);
    assert_eq!(server_step(&mut w, ServerEvent::Offered(Offer::Taken)), ServerAction::Accept);
    assert_eq!(server_step(&mut w, ServerEvent::Offered(Offer::Full)), ServerAction::OfferPatiently);
    assert_eq!(server_step(&mut w, ServerEvent::Waited(Offer::Full)), ServerAction::DropStream);
    assert_eq!(
        server_step(&mut w, ServerEvent::Waited(Offer::Gone)),
        ServerAction::Stop(StopReason::ChannelGone)
    );
    assert_eq!(
        server_step(&mut w, ServerEvent::Elapsed { saw_read: false, released: true }),
        ServerAction::Stop(StopReason::Released)
    );
    assert_eq!(
        server_step(&mut w, ServerEvent::Elapsed { saw_read: false, released: false }),
        ServerAction::Accept
    );
    assert_eq!(
        server_step(&mut w, ServerEvent::Elapsed { saw_read: false, released: true }),
        ServerAction::Stop(StopReason::Dead)
    );
    assert_eq!(
        server_step(&mut w, ServerEvent::AcceptFailed),
        ServerAction::Stop(StopReason::ConnectionError)
    );
    assert_eq!(
        server_step(&mut w, ServerEvent::Closed),
        ServerAction::Stop(StopReason::ConnectionClosed)
    );
}

#[test]
fn client_driver_dies_once() {
    let mut d = ClientDriver::new(&every(30));
    assert_eq!(d.step(ClientEvent::Polled(Inbound::Stream)), None);
    assert_eq!(d.step(ClientEvent::Asked), None);
    assert_eq!(d.step(ClientEvent::Elapsed { polled: Inbound::Waiting, saw_read: false }), None);
    assert!(d.alive);
    assert_eq!(
        d.step(ClientEvent::Elapsed { polled: Inbound::Closed, saw_read: true }),
        Some(StopReason::ConnectionClosed)
    );
    assert!(!d.alive);
    let mut d = ClientDriver::new(&every(30));
    for _ in 0..2 {
        assert_eq!(d.step(ClientEvent::Elapsed { polled: Inbound::Waiting, saw_read: false }), None);
    }
    assert_eq!(
        d.step(ClientEvent::Elapsed { polled: Inbound::Stream, saw_read: false }),
        Some(StopReason::Dead)
    );
    assert_eq!(
        ClientDriver::new(&every(1)).step(ClientEvent::Released),
        Some(StopReason::Released)
    );
    assert_eq!(
        ClientDriver::new(&every(1)).step(ClientEvent::Polled(Inbound::Failed)),
        Some(StopReason::ConnectionError)
    );
}

#[test]
fn first_streams_fail_with_a_reason() {
    assert!(first_stream(FirstStream::Accepted).is_ok());
    assert_eq!(
        first_stream(FirstStream::TimedOut).unwrap_err().message(),
        "protocol error: yamux: timed out waiting for the first stream"
    );
    assert_eq!(
        first_stream(FirstStream::Closed).unwrap_err().message(),
        "protocol error: yamux: connection closed before control stream"
    );
    assert_eq!(
        first_stream(FirstStream::Failed("io".into())).unwrap_err().message(),
        "protocol error: yamux: io"
    );
    assert_eq!(open_failure("io").message(), "protocol error: yamux: io");
}

#[test]
fn open_requests_are_served_in_order() {
    let mut q: OpenQueue<u32> = OpenQueue::new();
    for i in 0..MAX_PENDING_OPEN_REQUESTS as u32 {
        assert!(q.has_room());
        q.enqueue(i);
    }
    assert!(!q.has_room());
    let r = q.take_up().unwrap();
    assert!(matches!(q.settle(r, Reply::Cancelled), Settled::Forget(0)));
    let r = q.take_up().unwrap();
    assert!(matches!(q.settle(r, Reply::Answered), Settled::Answer(1)));
    let r = q.take_up().unwrap();
    assert!(matches!(q.settle(r, Reply::BacklogFull), Settled::EndPass));
    assert_eq!(q.take_up(), Some(2));
    assert!(q.has_room());
}

#[test]
fn opens_are_refused_promptly() {
    assert_eq!(open_step(OpenEvent::Called { alive: false }), OpenAction::Refuse);
    assert_eq!(open_step(OpenEvent::Called { alive: true }), OpenAction::Offer);
    assert_eq!(open_step(OpenEvent::Offered(Offer::Full)), OpenAction::Refuse);
    assert_eq!(open_step(OpenEvent::Offered(Offer::Gone)), OpenAction::Refuse);
    assert_eq!(open_step(OpenEvent::Offered(Offer::Taken)), OpenAction::Wait);
    assert_eq!(open_step(OpenEvent::Opened), OpenAction::Return);
    assert_eq!(open_step(OpenEvent::Failed), OpenAction::Refuse);
    assert_eq!(open_step(OpenEvent::Unanswered), OpenAction::Refuse);
    assert_eq!(open_step(OpenEvent::TimedOut), OpenAction::Refuse);
}
