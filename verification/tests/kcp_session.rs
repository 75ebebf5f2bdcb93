//! Sessions: backlog, delivery and forward error correction.
use frp_core::kcp::config::{KcpConfig, KcpNoDelayConfig};
use frp_core::kcp::session::{KcpSession, ReadChannel, SessionError, KCP_SND_BACKLOG_THRESHOLD};
use frp_core::kcp::shards::{FEC_GROUP_EXPIRE_MS, TYPE_DATA, TYPE_PARITY};

fn test_config() -> KcpConfig {
    KcpConfig {
        mtu: 1400,
        wnd_size: (128, 128),
        stream: true,
        data_shards: 0,
        parity_shards: 0,
        nodelay: KcpNoDelayConfig {
            nodelay: true,
            interval: 10,
            resend: 2,
            nc: true,
        },
    }
}

#[test]
fn test_session_create_no_fec() {
    let session = KcpSession::new(12345, test_config());
    assert_eq!(session.conv(), 12345);
    assert!(!session.is_dead_link());
}

/// Build a bare KCP header segment (24 bytes) with the given command and
/// advertised window. No payload.
fn make_header_pkt(conv: u32, cmd: u8, wnd: u16) -> Vec<u8> {
    let mut pkt = vec![0u8; 24];
    pkt[0..4].copy_from_slice(&conv.to_le_bytes());
    pkt[4] = cmd;
    pkt[6..8].copy_from_slice(&wnd.to_le_bytes());
    pkt
}

#[test]
fn test_snd_backlog_bounded_when_remote_window_zero() {
    // A peer advertising window 0 never ACKs; without a bound the KCP send
    // queue grows without limit. Verify the shared snd_backlog counter
    // (the value KcpStream::poll_write gates on) tracks wait_snd() past
    // KCP_SND_BACKLOG_THRESHOLD.
    let mut session = KcpSession::new(77, test_config());

    // Tell the sender the remote receive window is 0 (WINS cmd, wnd=0).
    session.input(&make_header_pkt(77, 0x54, 0)).unwrap();
    assert_eq!(session.kcp().rmt_wnd(), 0);

    // Send 1-segment chunks. With rmt_wnd=0, flush() cannot move segments
    // out of snd_queue, so wait_snd() grows past the threshold and the
    // shared counter follows (poll_write will then return Pending).
    let mss = session.kcp().mss();
    let mut sends = 0;
    while session.kcp().wait_snd() < KCP_SND_BACKLOG_THRESHOLD {
        session.send(&vec![0u8; mss]).unwrap();
        sends += 1;
        assert!(
            sends < 100_000,
            "snd_queue should grow but remain observable/bounded"
        );
    }

    assert_eq!(
        session.snd_backlog(),
        session.kcp().wait_snd()
    );
    assert!(session.snd_backlog() >= KCP_SND_BACKLOG_THRESHOLD);
}

#[test]
fn test_snd_backlog_recovers_when_window_reopens() {
    // Fill snd_queue past the threshold with
    // the peer window closed, then reopen the window and confirm ACKs drain
    // the shared backlog below the threshold (so poll_write resumes instead
    // of deadlocking).
    let mut rx1 = ReadChannel::new(512);
    let mut s1 = KcpSession::new(88, test_config());
    let mut rx2 = ReadChannel::new(512);
    let mut s2 = KcpSession::new(88, test_config());

    // Close the peer's window.
    s1.input(&make_header_pkt(88, 0x54, 0)).unwrap();
    assert_eq!(s1.kcp().rmt_wnd(), 0);

    // Fill snd_queue past the threshold.
    let mss = s1.kcp().mss();
    let mut sends = 0;
    while s1.kcp().wait_snd() < KCP_SND_BACKLOG_THRESHOLD {
        s1.send(&vec![0u8; mss]).unwrap();
        sends += 1;
        assert!(sends < 100_000);
    }
    assert!(s1.snd_backlog() >= KCP_SND_BACKLOG_THRESHOLD);

    // Reopen the peer's window.
    s1.input(&make_header_pkt(88, 0x54, 128)).unwrap();
    assert_eq!(s1.kcp().rmt_wnd(), 128);

    // Pump both directions until s1's backlog drains below the threshold.
    let mut now_ms = 0u32;
    let mut rounds = 0;
    while s1.snd_backlog() >= KCP_SND_BACKLOG_THRESHOLD {
        now_ms += 10;
        let pkts1 = s1.update(now_ms).unwrap();
        for p in &pkts1 {
            s2.input(p).unwrap();
        }
        s2.recv_and_push(&mut rx2).unwrap();
        let pkts2 = s2.update(now_ms).unwrap();
        for p in &pkts2 {
            s1.input(p).unwrap();
        }
        s1.recv_and_push(&mut rx1).unwrap();
        while rx2.try_recv().is_some() {
            // Keep s2's receive window open by draining delivered data.
        }
        rounds += 1;
        assert!(
            rounds < 1000,
            "snd_backlog should drain below threshold after window reopens"
        );
    }
    assert!(s1.snd_backlog() < KCP_SND_BACKLOG_THRESHOLD);
}

#[test]
fn test_session_send_recv_roundtrip() {
    let config = test_config();
    let mut s1 = KcpSession::new(1, config);
    let mut rx2 = ReadChannel::new(16);
    let mut s2 = KcpSession::new(1, config);

    s1.send(b"hello kcp").unwrap();

    let mut now_ms = 0u32;
    for _ in 0..20 {
        now_ms += 10;
        let packets = s1.update(now_ms).unwrap();
        for pkt in &packets {
            s2.input(pkt).unwrap();
        }
        s2.update(now_ms).unwrap();
        s2.recv_and_push(&mut rx2).unwrap();

        if let Some(data) = rx2.try_recv() {
            assert_eq!(data, b"hello kcp");
            return;
        }
    }
    panic!("timed out waiting for data");
}

#[test]
fn test_session_send_no_fec_produces_packets() {
    let config = test_config();
    let mut session = KcpSession::new(42, config);

    session.send(b"test data").unwrap();

    let mut got_packets = false;
    for tick in 0..10 {
        let packets = session.update((tick + 1) * 10).unwrap();
        if !packets.is_empty() {
            got_packets = true;
            break;
        }
    }
    assert!(got_packets, "should produce output after send+flush");
}

#[test]
fn test_session_shutdown_produces_no_output() {
    let mut session = KcpSession::new(1, test_config());

    session.shutdown();
    let packets = session.update(10).unwrap();
    assert!(
        packets.is_empty(),
        "shutdown session should produce no output"
    );
}

fn fec_config() -> KcpConfig {
    KcpConfig {
        mtu: 1400,
        wnd_size: (128, 128),
        // Non-stream mode: each send() = one KCP output packet = one FEC data shard.
        stream: false,
        data_shards: 3,
        parity_shards: 2,
        nodelay: KcpNoDelayConfig {
            nodelay: true,
            interval: 10,
            resend: 2,
            nc: true,
        },
    }
}

#[test]
fn test_fec_encode_decode_roundtrip() {
    let config = fec_config();
    let mut sender = KcpSession::new(1, config);
    let mut rx2 = ReadChannel::new(16);
    let mut receiver = KcpSession::new(1, config);

    sender.send(b"hello fec").unwrap();

    let mut now_ms = 0u32;
    for _ in 0..50 {
        now_ms += 10;
        let packets = sender.update(now_ms).unwrap();
        for pkt in &packets {
            receiver.input(pkt).unwrap();
        }
        receiver.update(now_ms).unwrap();
        receiver.recv_and_push(&mut rx2).unwrap();

        if let Some(data) = rx2.try_recv() {
            assert_eq!(data, b"hello fec");
            return;
        }
    }
    panic!("timed out waiting for FEC data");
}

#[test]
fn test_fec_encode_decode_multiple_packets() {
    // Test inter-packet FEC: multiple sends produce data+parity shards.
    let config = fec_config();
    let mut sender = KcpSession::new(2, config);
    let mut rx2 = ReadChannel::new(16);
    let mut receiver = KcpSession::new(2, config);

    // Send 3 packets interleaved with update to force KCP to produce
    // separate output packets (stream mode would otherwise coalesce).
    sender.send(b"pkt1").unwrap();
    let _ = sender.update(10).unwrap();
    sender.send(b"pkt2").unwrap();
    let _ = sender.update(20).unwrap();
    sender.send(b"pkt3").unwrap();

    let mut received = Vec::new();
    let mut now_ms = 30u32;
    for _ in 0..80 {
        now_ms += 10;
        let packets = sender.update(now_ms).unwrap();
        for pkt in &packets {
            receiver.input(pkt).unwrap();
        }
        receiver.update(now_ms).unwrap();
        receiver.recv_and_push(&mut rx2).unwrap();

        while let Some(data) = rx2.try_recv() {
            received.push(data);
        }
        if received.len() >= 3 {
            break;
        }
    }
    assert_eq!(received.len(), 3);
    assert_eq!(received[0], b"pkt1");
    assert_eq!(received[1], b"pkt2");
    assert_eq!(received[2], b"pkt3");
}

#[test]
fn test_fec_encode_decode_data_ending_with_zero() {
    let config = fec_config();
    let mut sender = KcpSession::new(3, config);
    let mut rx2 = ReadChannel::new(16);
    let mut receiver = KcpSession::new(3, config);

    // Data ending with zero bytes. SIZE field protects against
    // trailing-zero corruption (SIZE tells exact payload length).
    let data = b"hello\0\0\0\x01\x00";
    sender.send(data).unwrap();

    let mut now_ms = 0u32;
    for _ in 0..50 {
        now_ms += 10;
        let packets = sender.update(now_ms).unwrap();
        for pkt in &packets {
            receiver.input(pkt).unwrap();
        }
        receiver.update(now_ms).unwrap();
        receiver.recv_and_push(&mut rx2).unwrap();

        if let Some(received) = rx2.try_recv() {
            assert_eq!(received, data, "data with trailing zero preserved");
            return;
        }
    }
    panic!("timed out waiting for FEC data with trailing zero");
}

#[test]
fn test_fec_parity_recovery() {
    let config = fec_config(); // non-stream: each send = one output packet
    let mut rx1 = ReadChannel::new(16);
    let mut sender = KcpSession::new(4, config);
    let mut rx2 = ReadChannel::new(16);
    let mut receiver = KcpSession::new(4, config);

    // Send 3 packets, running update after each to flush individually.
    let mut all_packets = Vec::new();
    let mut now_ms = 0u32;

    sender.send(b"parity test payload").unwrap();
    for _ in 0..10 {
        now_ms += 10;
        all_packets.extend(sender.update(now_ms).unwrap());
    }
    sender.send(b"filler-a").unwrap();
    for _ in 0..10 {
        now_ms += 10;
        all_packets.extend(sender.update(now_ms).unwrap());
    }
    sender.send(b"filler-b").unwrap();
    for _ in 0..20 {
        now_ms += 10;
        all_packets.extend(sender.update(now_ms).unwrap());
    }

    let data_packets: Vec<_> = all_packets
        .iter()
        .filter(|p| p.len() >= 6 && u16::from_le_bytes([p[4], p[5]]) == TYPE_DATA)
        .collect();
    assert!(
        data_packets.len() >= 3,
        "should have at least 3 data shards, got {} data / {} total",
        data_packets.len(),
        all_packets.len()
    );

    // Drop the second data shard (data_idx=1), feed rest to receiver.
    let mut skipped = false;
    let mut data_idx = 0u32;
    for pkt in &all_packets {
        if pkt.len() < 6 {
            continue;
        }
        let flag = u16::from_le_bytes([pkt[4], pkt[5]]);
        if flag == TYPE_DATA {
            if data_idx == 1 && !skipped {
                skipped = true;
                data_idx += 1;
                continue;
            }
            data_idx += 1;
        }
        receiver.input(pkt).unwrap();
    }
    assert!(skipped, "should have skipped second data shard");

    // Drive receiver to complete FEC decode.
    for _ in 0..40 {
        now_ms += 10;
        let rpkts = receiver.update(now_ms).unwrap();
        for pkt in rpkts {
            sender.input(&pkt).unwrap();
        }
        receiver.recv_and_push(&mut rx2).unwrap();
        sender.update(now_ms + 100).unwrap();
        sender.recv_and_push(&mut rx1).unwrap();
    }

    let mut got = Vec::new();
    while let Some(data) = rx2.try_recv() {
        got.push(data);
    }
    let payload_found = got.iter().any(|d| d == b"parity test payload");
    assert!(
        payload_found,
        "should recover parity test payload, got: {:?}",
        got
    );
}

#[test]
fn test_fec_enabled_parity_shards_on_wire() {
    // Verify parity shards appear when data_shards packets are collected.
    let config = fec_config(); // data_shards=3, parity_shards=2
    let mut sender = KcpSession::new(5, config);

    // Send 3 packets interleaved with update to force KCP to produce
    // separate output packets (stream mode coalesces otherwise).
    sender.send(b"a").unwrap();
    let packets1 = sender.update(10).unwrap();
    sender.send(b"b").unwrap();
    let packets2 = sender.update(20).unwrap();
    sender.send(b"c").unwrap();
    let packets3 = sender.update(30).unwrap();

    let all_packets: Vec<&Vec<u8>> = packets1
        .iter()
        .chain(packets2.iter())
        .chain(packets3.iter())
        .collect();

    // Should have at least 3 data shards. Parity may follow in later updates.
    let data_count = all_packets
        .iter()
        .filter(|p| p.len() >= 6 && u16::from_le_bytes([p[4], p[5]]) == TYPE_DATA)
        .count();
    assert!(
        data_count >= 3,
        "should have at least 3 data shards, got {}",
        data_count
    );

    // Run more updates to flush parity.
    let mut parity_count = 0usize;
    for tick in 0..20 {
        let packets = sender.update(40 + tick * 10).unwrap();
        parity_count += packets
            .iter()
            .filter(|p| p.len() >= 6 && u16::from_le_bytes([p[4], p[5]]) == TYPE_PARITY)
            .count();
        if parity_count >= 2 {
            break;
        }
    }
    assert!(
        parity_count >= 2,
        "should have at least 2 parity shards, got {}",
        parity_count
    );
}

#[test]
fn test_fec_decode_drops_non_fec_packets() {
    // Non-FEC packets (flag != 0xf1/0xf2) should be treated as raw KCP.
    // Use no-FEC config so the session passes through to kcp directly.
    let config = test_config(); // data_shards=0, parity_shards=0
    let mut receiver = KcpSession::new(0, config);

    // Build a raw KCP packet (not FEC format, but valid KCP header).
    // KCP header: conv(4B) + cmd(1B) + frg(1B) + wnd(2B) + ...
    // All zeros = conv=0, cmd=0 (invalid — PUSH is 0x51), frg=0 — will not cause panic.
    let raw_pkt = [0u8; 24]; // minimum KCP header size
                             // This may or may not produce an error from kcp (depends on internal
                             // validation), but it should NOT panic.
    let _ = receiver.input(&raw_pkt);
}

/// Build a raw KCP PUSH segment with a 24-byte header. 0x51 = KCP_CMD_PUSH.
fn make_push(conv: u32, sn: u32, frg: u8, ts: u32, data: &[u8]) -> Vec<u8> {
    let mut pkt = Vec::with_capacity(24 + data.len());
    pkt.extend_from_slice(&conv.to_le_bytes());
    pkt.push(0x51);
    pkt.push(frg);
    pkt.extend_from_slice(&128u16.to_le_bytes()); // wnd
    pkt.extend_from_slice(&ts.to_le_bytes());
    pkt.extend_from_slice(&sn.to_le_bytes());
    pkt.extend_from_slice(&0u32.to_le_bytes()); // una
    pkt.extend_from_slice(&(data.len() as u32).to_le_bytes());
    pkt.extend_from_slice(data);
    pkt
}

#[test]
fn test_fec_stale_partial_group_pruned_by_timeout() {
    // A partially-filled FEC group must be dropped once it receives no
    // shard for FEC_GROUP_EXPIRE_MS
    // milliseconds. The MAX_SHARD_SETS cap stays on top.
    let config = fec_config(); // data_shards=3, parity_shards=2
    let mut sender = KcpSession::new(6, config);
    let mut receiver = KcpSession::new(6, config);

    // Pin the FEC clock so the silent gap can be simulated deterministically.
    receiver.set_fec_clock_ms(0);

    // Produce one complete FEC group and feed only 2 of its 3 data shards,
    // so the group never completes.
    sender.send(b"one").unwrap();
    sender.send(b"two").unwrap();
    sender.send(b"three").unwrap();
    let mut packets = Vec::new();
    for tick in 0..30 {
        packets.extend(sender.update(10 + tick * 10).unwrap());
        if packets
            .iter()
            .filter(|p| p.len() >= 6 && u16::from_le_bytes([p[4], p[5]]) == TYPE_DATA)
            .count()
            >= 3
        {
            break;
        }
    }
    let mut fed = 0usize;
    for pkt in &packets {
        if pkt.len() >= 6 && u16::from_le_bytes([pkt[4], pkt[5]]) == TYPE_DATA && fed < 2 {
            receiver.input(pkt).unwrap();
            fed += 1;
        }
    }
    assert_eq!(fed, 2);
    assert_eq!(receiver.group_count(), 1, "partial group retained");

    // Still within the expiry window: prune must keep the group.
    receiver.set_fec_clock_ms(FEC_GROUP_EXPIRE_MS - 1);
    receiver.prune_old_groups();
    assert_eq!(
        receiver.group_count(),
        1,
        "active group survives prune"
    );

    // Group silent longer than FEC_GROUP_EXPIRE_MS: prune (as invoked from
    // input()) must drop the stale residue.
    receiver.set_fec_clock_ms(FEC_GROUP_EXPIRE_MS + 1);
    receiver.prune_old_groups();
    assert!(
        receiver.group_count() == 0,
        "stale partial group must be pruned after FEC_GROUP_EXPIRE_MS"
    );
}

#[test]
fn test_zero_len_push_consumed_without_forwarding() {
    // A len=0 PUSH segment must be consumed without being forwarded as an
    // empty frame — an empty frame would make KcpStream::poll_read return
    // Ok(0), which tokio treats as EOF and tears the connection down.
    let config = test_config();
    let mut rx2 = ReadChannel::new(16);
    let mut s2 = KcpSession::new(9, config);

    // Empty PUSH first (sn=0), then a real PUSH (sn=1) from the same peer.
    s2.input(&make_push(9, 0, 0, 0, b"")).unwrap();
    s2.input(&make_push(9, 1, 0, 0, b"after empty")).unwrap();

    s2.update(10).unwrap();
    s2.recv_and_push(&mut rx2).unwrap();

    let mut frames = Vec::new();
    while let Some(d) = rx2.try_recv() {
        frames.push(d);
    }
    assert!(
        frames.iter().all(|f| !f.is_empty()),
        "no empty frame may be forwarded, got {:?}",
        frames
    );
    assert_eq!(frames, vec![b"after empty".to_vec()]);
}

#[test]
fn test_zero_len_push_in_fragment_chain_reassembles() {
    // An empty segment in the MIDDLE of a fragment chain (frg=1 empty,
    // frg=0 carries data) must not corrupt reassembly: the chain's total
    // peek size is non-zero, so the normal path merges it into one frame.
    let config = test_config();
    let mut rx2 = ReadChannel::new(16);
    let mut s2 = KcpSession::new(10, config);

    s2.input(&make_push(10, 0, 1, 0, b"")).unwrap();
    s2.input(&make_push(10, 1, 0, 0, b"tail")).unwrap();

    s2.update(10).unwrap();
    s2.recv_and_push(&mut rx2).unwrap();

    let mut frames = Vec::new();
    while let Some(d) = rx2.try_recv() {
        frames.push(d);
    }
    assert_eq!(frames, vec![b"tail".to_vec()]);
}

#[test]
fn test_snd_backlog_crossing_wakes_parked_writer() {
    let mut s1 = KcpSession::new(89, test_config());
    let mut rx1 = ReadChannel::new(512);
    let mut s2 = KcpSession::new(89, test_config());
    let mut rx2 = ReadChannel::new(512);
    s1.input(&make_header_pkt(89, 0x54, 0)).unwrap();
    let mss = s1.kcp().mss();
    while s1.kcp().wait_snd() < KCP_SND_BACKLOG_THRESHOLD {
        s1.send(&vec![0u8; mss]).unwrap();
    }
    assert!(!s1.take_writer_wake());
    s1.input(&make_header_pkt(89, 0x54, 128)).unwrap();
    let mut now_ms = 0u32;
    while s1.snd_backlog() >= KCP_SND_BACKLOG_THRESHOLD {
        now_ms += 10;
        assert!(now_ms < 10_000, "backlog must drain");
        for p in &s1.update(now_ms).unwrap() {
            s2.input(p).unwrap();
        }
        s2.recv_and_push(&mut rx2).unwrap();
        for p in &s2.update(now_ms).unwrap() {
            s1.input(p).unwrap();
        }
        s1.recv_and_push(&mut rx1).unwrap();
        while rx2.try_recv().is_some() {}
    }
    assert!(s1.take_writer_wake(), "the crossing wakes the writer");
    assert!(!s1.take_writer_wake(), "once");
}

#[test]
fn closed_read_channel_is_an_error() {
    let mut s = KcpSession::new(9, test_config());
    s.input(&make_push(9, 0, 0, 0, b"data")).unwrap();
    s.update(10).unwrap();
    let mut rx = ReadChannel::new(16);
    rx.close();
    assert_eq!(s.recv_and_push(&mut rx), Err(SessionError::ReadChannelClosed));
}

#[test]
fn full_read_channel_keeps_the_frame() {
    let mut s = KcpSession::new(9, KcpConfig { stream: false, ..test_config() });
    s.input(&make_push(9, 0, 0, 0, b"one")).unwrap();
    s.input(&make_push(9, 1, 0, 0, b"two")).unwrap();
    s.update(10).unwrap();
    let mut rx = ReadChannel::new(1);
    s.recv_and_push(&mut rx).unwrap();
    assert_eq!(rx.try_recv(), Some(b"one".to_vec()));
    s.recv_and_push(&mut rx).unwrap();
    assert_eq!(rx.try_recv(), Some(b"two".to_vec()));
    assert_eq!(rx.try_recv(), None);
}

/// The first full group of a sender, and the KCP data that it carries.
fn first_group() -> (Vec<Vec<u8>>, Vec<u8>) {
    let mut a = KcpSession::new(5, KcpConfig { stream: false, ..fec_config() });
    let total = fec_config().data_shards + fec_config().parity_shards;
    let mut wire = Vec::new();
    let mut written = Vec::new();
    let mut n: u8 = 0;
    while wire.len() < total {
        let data = vec![n; 50 + n as usize];
        a.send(&data).unwrap();
        written.extend_from_slice(&data);
        wire.extend(a.force_flush(n as u32).unwrap());
        n += 1;
    }
    wire.truncate(total);
    (wire, written)
}

fn all_read(b: &mut KcpSession) -> Vec<u8> {
    let mut channel = ReadChannel::new(256);
    b.recv_and_push(&mut channel).unwrap();
    let mut all = Vec::new();
    while let Some(frame) = channel.try_recv() {
        all.extend_from_slice(&frame);
    }
    all
}

/// Any `k` packets of a group, in any order and some of them twice, bring what
/// its data packets carry.
#[test]
fn any_k_packets_of_a_group_bring_its_data() {
    let (wire, written) = first_group();
    let (k, p) = (fec_config().data_shards, fec_config().parity_shards);
    assert_eq!(wire.len(), k + p);
    for lost in 0..k {
        let mut b = KcpSession::new(5, KcpConfig { stream: false, ..fec_config() });
        let mut kept: Vec<usize> = (0..k + 1).filter(|&i| i != lost).collect();
        assert_eq!(kept.len(), k);
        kept.reverse();
        for (n, &i) in kept.iter().enumerate() {
            assert_eq!(b.input(&wire[i]), Ok(()));
            if n + 1 < k {
                assert_eq!(b.input(&wire[i]), Ok(()));
            }
        }
        assert_eq!(all_read(&mut b), written, "lost {lost}");
    }
    let mut b = KcpSession::new(5, KcpConfig { stream: false, ..fec_config() });
    for d in &wire[..k] {
        assert_eq!(b.input(d), Ok(()));
    }
    assert_eq!(all_read(&mut b), written);
}
