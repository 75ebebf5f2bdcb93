//! The protocol state machine, alone and over a lossy link.
use std::collections::VecDeque;

use frp_core::kcp::model::{KCP_CMD_ACK, KCP_CMD_PUSH, KCP_CMD_WASK, KCP_OVERHEAD};
use frp_core::kcp::protocol::{Error, Kcp, KcpWriter};
use rand::Rng;

/// Parse the 24-byte header of one packet.
fn parse_packet(pkt: &[u8]) -> (u32, u8, u8, u16, u32, u32, u32, Vec<u8>) {
    assert!(pkt.len() >= KCP_OVERHEAD, "packet too short");
    let conv = u32::from_le_bytes(pkt[0..4].try_into().unwrap());
    let cmd = pkt[4];
    let frg = pkt[5];
    let wnd = u16::from_le_bytes(pkt[6..8].try_into().unwrap());
    let ts = u32::from_le_bytes(pkt[8..12].try_into().unwrap());
    let sn = u32::from_le_bytes(pkt[12..16].try_into().unwrap());
    let una = u32::from_le_bytes(pkt[16..20].try_into().unwrap());
    let len = u32::from_le_bytes(pkt[20..24].try_into().unwrap()) as usize;
    assert_eq!(len, pkt.len() - KCP_OVERHEAD, "payload length mismatch");
    (
        conv,
        cmd,
        frg,
        wnd,
        ts,
        sn,
        una,
        pkt[KCP_OVERHEAD..].to_vec(),
    )
}

/// Build a PUSH segment with a 24-byte header.
fn make_push(conv: u32, sn: u32, frg: u8, ts: u32, data: &[u8]) -> Vec<u8> {
    let mut pkt = Vec::with_capacity(KCP_OVERHEAD + data.len());
    pkt.extend_from_slice(&conv.to_le_bytes());
    pkt.push(KCP_CMD_PUSH);
    pkt.push(frg);
    pkt.extend_from_slice(&128u16.to_le_bytes()); // wnd
    pkt.extend_from_slice(&ts.to_le_bytes());
    pkt.extend_from_slice(&sn.to_le_bytes());
    pkt.extend_from_slice(&0u32.to_le_bytes()); // una
    pkt.extend_from_slice(&(data.len() as u32).to_le_bytes());
    pkt.extend_from_slice(data);
    pkt
}

/// Build an ACK segment with a 24-byte header.
fn make_ack(conv: u32, sn: u32, wnd: u16, ts: u32) -> Vec<u8> {
    let mut pkt = Vec::with_capacity(KCP_OVERHEAD);
    pkt.extend_from_slice(&conv.to_le_bytes());
    pkt.push(KCP_CMD_ACK);
    pkt.push(0);
    pkt.extend_from_slice(&wnd.to_le_bytes());
    pkt.extend_from_slice(&ts.to_le_bytes());
    pkt.extend_from_slice(&sn.to_le_bytes());
    pkt.extend_from_slice(&0u32.to_le_bytes()); // una
    pkt.extend_from_slice(&0u32.to_le_bytes()); // len
    pkt
}

/// Drive a fresh Kcp through two updates so queued data actually flushes
/// (the congestion window starts at 0, so the first flush only arms it).
fn send_and_flush(kcp: &mut Kcp, data: &[u8]) {
    kcp.send(data).unwrap();
    // Default interval is 100ms, so the flush at update(100) moves the
    // queued segment into snd_buf and writes it to the output.
    kcp.update(0).unwrap();
    kcp.update(200).unwrap();
}

// ── 1. 24-byte header encoding / decoding ────────────────────────────

#[test]
fn header_encode_little_endian() {
    let mut a = Kcp::new(0x1122_3344, KcpWriter::default());
    a.set_nodelay(true, 10, 2, true); // nocwnd: first flush sends data
    a.send(b"hello").unwrap();
    a.update(0).unwrap();

    let out = a.output_mut().drain();
    assert_eq!(out.len(), 1, "expected one packet");

    let (conv, cmd, frg, wnd, ts, sn, una, data) = parse_packet(&out[0]);
    assert_eq!(conv, 0x1122_3344);
    assert_eq!(cmd, KCP_CMD_PUSH);
    assert_eq!(frg, 0);
    assert_eq!(wnd, 128, "wnd = rcv_wnd(128) - empty queue");
    assert_eq!(ts, 0, "sent at current=0");
    assert_eq!(sn, 0);
    assert_eq!(una, 0);
    assert_eq!(data, b"hello");

    // Byte-exact little-endian layout.
    let expected: Vec<u8> = [
        0x44, 0x33, 0x22, 0x11, // conv LE
        0x51, // cmd = 81 (PUSH)
        0x00, // frg
        0x80, 0x00, // wnd = 128 LE
        0x00, 0x00, 0x00, 0x00, // ts
        0x00, 0x00, 0x00, 0x00, // sn
        0x00, 0x00, 0x00, 0x00, // una
        0x05, 0x00, 0x00, 0x00, // len = 5 LE
    ]
    .to_vec();
    let mut with_payload = expected.clone();
    with_payload.extend_from_slice(b"hello");
    assert_eq!(out[0], with_payload);
}

#[test]
fn input_decodes_multiple_segments_in_one_datagram() {
    let mut b = Kcp::new(0x1122_3344, KcpWriter::default());
    b.update(0).unwrap(); // arm updated

    // Two PUSH segments concatenated into a single datagram.
    let mut datagram = make_push(0x1122_3344, 0, 1, 5, b"aa");
    datagram.extend_from_slice(&make_push(0x1122_3344, 1, 0, 5, b"bb"));

    b.input(&datagram).unwrap();
    assert_eq!(b.peeksize().unwrap(), 4, "frg chain merged");
    let mut buf = [0u8; 16];
    assert_eq!(b.recv(&mut buf).unwrap(), 4);
    assert_eq!(&buf[..4], b"aabb");
}

#[test]
fn input_rejects_wrong_conv() {
    let mut b = Kcp::new(0x1111_1111, KcpWriter::default());
    let pkt = make_push(0x2222_2222, 0, 0, 0, b"x");
    match b.input(&pkt) {
        Err(Error::ConvInconsistent(0x1111_1111, 0x2222_2222)) => {}
        other => panic!("expected ConvInconsistent, got {:?}", other.map(|n| n)),
    }
}

// ── 2. basic roundtrip ───────────────────────────────────────────────

#[test]
fn roundtrip_no_loss() {
    let mut a = Kcp::new(0x1122_3344, KcpWriter::default());
    let mut b = Kcp::new(0x1122_3344, KcpWriter::default());

    send_and_flush(&mut a, b"hello");
    for pkt in a.output_mut().drain() {
        b.input(&pkt).unwrap();
    }
    assert_eq!(b.peeksize().unwrap(), 5);
    let mut buf = [0u8; 16];
    assert_eq!(b.recv(&mut buf).unwrap(), 5);
    assert_eq!(&buf[..5], b"hello");

    // Reverse direction.
    send_and_flush(&mut b, b"world");
    for pkt in b.output_mut().drain() {
        a.input(&pkt).unwrap();
    }
    assert_eq!(a.peeksize().unwrap(), 5);
    assert_eq!(a.recv(&mut buf).unwrap(), 5);
    assert_eq!(&buf[..5], b"world");
}

#[test]
fn recv_empty_returns_recv_queue_empty() {
    let mut a = Kcp::new(1, KcpWriter::default());
    let mut buf = [0u8; 16];
    assert!(matches!(a.recv(&mut buf), Err(Error::RecvQueueEmpty)));
    assert!(matches!(a.peeksize(), Err(Error::RecvQueueEmpty)));
}

// ── 3. fragmentation and reassembly ──────────────────────────────────

#[test]
fn fragmentation_message_mode() {
    let mut a = Kcp::new(0x1122_3344, KcpWriter::default());
    let mut b = Kcp::new(0x1122_3344, KcpWriter::default());
    a.set_nodelay(true, 10, 2, true);

    // mss = 1400 - 24 = 1376, so 3000 bytes split into 3 fragments.
    let big = vec![0xabu8; 3000];
    a.send(&big).unwrap();
    a.update(0).unwrap();

    let out = a.output_mut().drain();
    assert_eq!(out.len(), 3, "3000 bytes over mss=1376 -> 3 packets");

    // frg counts down across the fragments: 2, 1, 0.
    let mut frgs = Vec::new();
    let mut total = 0usize;
    for pkt in &out {
        let (_, _, frg, _, _, _, _, data) = parse_packet(pkt);
        frgs.push(frg);
        total += data.len();
    }
    assert_eq!(frgs, vec![2, 1, 0]);
    assert_eq!(total, 3000);

    for pkt in &out {
        b.input(pkt).unwrap();
    }
    assert_eq!(b.peeksize().unwrap(), 3000, "fragment chain reassembled");
    let mut buf = vec![0u8; 3000];
    assert_eq!(b.recv(&mut buf).unwrap(), 3000);
    assert_eq!(buf, big);
}

#[test]
fn stream_mode_merges_byte_stream() {
    let mut a = Kcp::new_stream(0x1122_3344, KcpWriter::default());
    let mut b = Kcp::new_stream(0x1122_3344, KcpWriter::default());
    a.set_nodelay(true, 10, 2, true);

    // Two small sends merge into the trailing segment.
    a.send(b"ab").unwrap();
    a.send(b"cde").unwrap();
    a.update(0).unwrap();

    let out = a.output_mut().drain();
    assert_eq!(out.len(), 1, "merged into one packet");
    let (_, _, _, _, _, _, _, data) = parse_packet(&out[0]);
    assert_eq!(data, b"abcde");

    b.input(&out[0]).unwrap();
    assert_eq!(b.peeksize().unwrap(), 5);
    let mut buf = [0u8; 16];
    assert_eq!(b.recv(&mut buf).unwrap(), 5);
    assert_eq!(&buf[..5], b"abcde");
}

#[test]
fn stream_mode_large_send_splits_with_frg_zero() {
    let mut a = Kcp::new_stream(0x1122_3344, KcpWriter::default());
    let mut b = Kcp::new_stream(0x1122_3344, KcpWriter::default());
    a.set_nodelay(true, 10, 2, true);

    // In stream mode every fragment carries frg=0; the receiver drains
    // them one recv at a time (byte-stream semantics).
    let big: Vec<u8> = (0..3000u32).map(|i| (i % 251) as u8).collect();
    a.send(&big).unwrap();
    a.update(0).unwrap();

    let out = a.output_mut().drain();
    let total: usize = out.iter().map(|p| parse_packet(p).7.len()).sum();
    assert_eq!(total, 3000);
    assert!(out.iter().all(|p| parse_packet(p).2 == 0), "stream frg=0");

    for pkt in &out {
        b.input(pkt).unwrap();
    }

    let mut received = Vec::new();
    let mut buf = vec![0u8; 2000];
    loop {
        match b.peeksize() {
            Err(Error::RecvQueueEmpty) => break,
            Ok(size) => {
                assert!(size <= buf.len());
                let n = b.recv(&mut buf[..size]).unwrap();
                received.extend_from_slice(&buf[..n]);
            }
            Err(e) => panic!("peeksize error: {e:?}"),
        }
    }
    assert_eq!(received, big);
}

// ── 4. send window rejection ─────────────────────────────────────────

#[test]
fn send_rejects_message_larger_than_receive_window() {
    let mut a = Kcp::new(1, KcpWriter::default());
    // mss=1376; KCP_WND_RCV=128 => max message ~ 128 * 1376.
    let too_big = vec![0u8; 128 * 1376];
    assert!(matches!(a.send(&too_big), Err(Error::UserBufTooBig)));
}

// ── 5. retransmission and probes ──────────────────────────────────────

/// With nodelay enabled, RTO backoff is LINEAR (rto += rx_rto/2),
/// not exponential as rto += rto/2. rx_rto stays 200 because no
/// ACK ever arrives, so every retransmission adds exactly rx_rto/2 = 100.
#[test]
fn rto_linear_backoff_nodelay() {
    let mut a = Kcp::new(0x1122_3344, KcpWriter::default());
    a.set_nodelay(true, 10, 2, true); // nodelay + nc
    a.send(b"data").unwrap();

    // update(0) arms the window and flushes the segment (nocwnd).
    a.update(0).unwrap();
    assert_eq!(a.snd_buf.len(), 1);
    assert_eq!(a.snd_buf[0].xmit, 1);
    assert_eq!(a.snd_buf[0].rto, 200);
    assert_eq!(a.snd_buf[0].resendts, 200); // 0 + rto(200) + rtomin(0)

    // Drop the output packet (simulate loss), then hit the RTO deadline.
    let _dropped = a.output_mut().drain();
    a.update(200).unwrap(); // resendts reached -> RTO retransmit
    assert_eq!(a.snd_buf[0].xmit, 2);
    assert_eq!(a.snd_buf[0].rto, 300, "200 + rx_rto/2 = 300 (linear)");
    assert_eq!(a.snd_buf[0].resendts, 500); // 200 + 300

    let _dropped = a.output_mut().drain();
    a.update(500).unwrap(); // second RTO retransmit
    assert_eq!(a.snd_buf[0].xmit, 3);
    assert_eq!(a.snd_buf[0].rto, 400, "300 + rx_rto/2 = 400 (linear)");
    // Exponential backoff would have produced 200 -> 400 -> 800.
    assert!(a.snd_buf[0].rto < 800, "must not be exponential backoff");
}

/// early retransmit fires when fastack > 0 AND no new segments
/// were moved from snd_queue in this flush (fastresend is 0, so the fast
/// retransmit branch cannot claim the segment first).
#[test]
fn early_retransmit_trigger() {
    let mut a = Kcp::new(0x1122_3344, KcpWriter::default());
    let mut b = Kcp::new(0x1122_3344, KcpWriter::default());
    a.set_nodelay(true, 10, 2, true); // fastresend=2, nc
    b.set_nodelay(true, 10, 2, true);

    // Two segments in flight; sn=1 is delivered, sn=0 is lost.
    a.send(&vec![0x11u8; 1000]).unwrap();
    a.send(&vec![0x22u8; 1000]).unwrap();
    a.update(0).unwrap(); // nocwnd -> both segments flushed now

    let out = a.output_mut().drain();
    assert_eq!(out.len(), 2);
    let sn0_pkt = parse_packet(&out[0]).5;
    let sn1_pkt = parse_packet(&out[1]).5;
    assert_eq!((sn0_pkt, sn1_pkt), (0, 1));

    // Receiver sees sn=1 only; ACKs it (sn=0 stays in snd_buf with
    // fastack incremented via parse_fastack).
    b.input(&out[1]).unwrap();
    b.update(0).unwrap();
    let ack_pkt = b.output_mut().drain();
    assert_eq!(ack_pkt.len(), 1);
    let (_, cmd, _, _, _, ack_sn, _, _) = parse_packet(&ack_pkt[0]);
    assert_eq!(cmd, KCP_CMD_ACK);
    assert_eq!(ack_sn, 1);

    a.input(&ack_pkt[0]).unwrap();
    assert_eq!(a.snd_buf[0].sn, 0);
    assert_eq!(
        a.snd_buf[0].fastack, 1,
        "out-of-order ACK counts as fastack"
    );
    assert_eq!(a.snd_buf.len(), 1, "sn=1 was acked and removed");

    // Next flush: queue is empty (new_segs_count == 0) so early
    // retransmit re-sends sn=0 immediately, well before its RTO.
    a.update(10).unwrap();
    let out = a.output_mut().drain();
    let pushed: Vec<(u8, u32)> = out
        .iter()
        .map(|p| {
            let (_, cmd, _, _, _, sn, _, _) = parse_packet(p);
            (cmd, sn)
        })
        .collect();
    assert!(
        pushed.contains(&(KCP_CMD_PUSH, 0)),
        "expected retransmitted PUSH sn=0, got {pushed:?}"
    );
}

/// fast retransmit fires before RTO. With fastresend=1 the
/// segment is retransmitted on fastack>=1 even though its resend deadline
/// is still far in the future.
#[test]
fn fast_retransmit_before_rto() {
    let mut a = Kcp::new(0x1122_3344, KcpWriter::default());
    let mut b = Kcp::new(0x1122_3344, KcpWriter::default());
    a.set_nodelay(true, 10, 1, true); // fastresend=1, nc
    b.set_nodelay(true, 10, 1, true);

    a.send(&vec![0x11u8; 1000]).unwrap();
    a.send(&vec![0x22u8; 1000]).unwrap();
    a.update(0).unwrap();

    let out = a.output_mut().drain();
    // Deliver sn=1 only.
    b.input(&out[1]).unwrap();
    b.update(0).unwrap();
    let ack_pkt = b.output_mut().drain();
    assert_eq!(ack_pkt.len(), 1);

    a.input(&ack_pkt[0]).unwrap();
    assert_eq!(a.snd_buf[0].fastack, 1);

    // resend deadline for sn=0 is 0 + 200 = 200; current is 10, so RTO
    // has NOT fired. The fastack>=1 branch retransmits it anyway.
    assert!(a.snd_buf[0].resendts > 10);
    a.update(10).unwrap();
    let out = a.output_mut().drain();
    let pushed: Vec<(u8, u32)> = out
        .iter()
        .map(|p| {
            let (_, cmd, _, _, _, sn, _, _) = parse_packet(p);
            (cmd, sn)
        })
        .collect();
    assert!(
        pushed.contains(&(KCP_CMD_PUSH, 0)),
        "expected fast retransmit of PUSH sn=0, got {pushed:?}"
    );
}

/// Window probing: when rmt_wnd reaches 0, WASK is sent with exponential
/// backoff (7000ms -> +50% -> capped at 120s).
#[test]
fn window_probe_sends_wask() {
    let mut a = Kcp::new(0x1122_3344, KcpWriter::default());
    a.set_nodelay(true, 10, 2, true);
    a.send(b"x").unwrap();
    a.update(0).unwrap(); // flush sn=0
    let _dropped = a.output_mut().drain();

    // Fake ACK with window 0: remote cannot receive more data.
    let ack = make_ack(0x1122_3344, 0, 0, 0);
    a.input(&ack).unwrap();
    assert_eq!(a.rmt_wnd(), 0);

    // First probe schedules ts_probe = current + 7000 but sends nothing.
    a.update(7000).unwrap();
    let out = a.output_mut().drain();
    assert!(
        !out.iter().any(|p| parse_packet(p).1 == KCP_CMD_WASK),
        "first probe must only arm the timer"
    );

    // Second probe (wait already 7000ms) emits WASK and backs off.
    a.update(14_000).unwrap();
    let out = a.output_mut().drain();
    assert!(
        out.iter().any(|p| parse_packet(p).1 == KCP_CMD_WASK),
        "expected a WASK packet after the probe deadline"
    );
    assert_eq!(a.probe_wait, 10_500, "probe_wait += probe_wait/2");
}

// ── lossy link ──────────────────────────────────────────────────────────

struct DelayPacket {
    buf: Vec<u8>,
    ts: u32,
}

/// Fisher-Yates pool of 0..size-1 used to decide packet drops.
struct Random {
    seeds: Vec<u32>,
    size: usize,
}

impl Random {
    fn new(size: usize) -> Self {
        Random {
            seeds: vec![0u32; size],
            size: 0,
        }
    }

    fn random(&mut self) -> u32 {
        if self.seeds.is_empty() {
            return 0;
        }
        if self.size == 0 {
            for (i, e) in self.seeds.iter_mut().enumerate() {
                *e = i as u32;
            }
            self.size = self.seeds.len();
        }
        let i = rand::thread_rng().gen_range(0..self.size);
        let x = self.seeds[i];
        self.size -= 1;
        self.seeds[i] = self.seeds[self.size];
        x
    }
}

/// Virtual network between two peers: per-direction loss, delay, and a
/// bounded queue. Timestamps are simulated milliseconds (monotonic).
struct LatencySimulator {
    lostrate: u32,
    rttmin: u32,
    rttmax: u32,
    nmax: usize,
    current: u32,
    p12: VecDeque<DelayPacket>,
    p21: VecDeque<DelayPacket>,
    r12: Random,
    r21: Random,
}

impl LatencySimulator {
    fn new(lostrate: u32, rttmin: u32, rttmax: u32, nmax: usize) -> Self {
        LatencySimulator {
            lostrate: lostrate / 2,
            rttmin: rttmin / 2,
            rttmax: rttmax / 2,
            nmax,
            current: 0,
            p12: VecDeque::new(),
            p21: VecDeque::new(),
            r12: Random::new(100),
            r21: Random::new(100),
        }
    }

    fn send(&mut self, peer: u32, data: &[u8]) -> usize {
        if peer == 0 {
            if self.r12.random() < self.lostrate {
                return data.len();
            }
            if self.p12.len() >= self.nmax {
                return data.len();
            }
        } else {
            if self.r21.random() < self.lostrate {
                return data.len();
            }
            if self.p21.len() >= self.nmax {
                return data.len();
            }
        }

        let mut delay = self.rttmin;
        if self.rttmax > self.rttmin {
            delay += rand::thread_rng().gen_range(0..(self.rttmax - self.rttmin));
        }

        let pkg = DelayPacket {
            buf: data.to_vec(),
            ts: self.current + delay,
        };

        if peer == 0 {
            self.p12.push_back(pkg);
        } else {
            self.p21.push_back(pkg);
        }
        data.len()
    }

    fn recv(&mut self, peer: u32, data: &mut [u8]) -> Option<usize> {
        let front = if peer == 0 {
            self.p12.front()
        } else {
            self.p21.front()
        };
        let pkg = match front {
            None => return None,
            Some(p) => p,
        };

        if self.current < pkg.ts {
            return None;
        }

        if data.len() < pkg.buf.len() {
            return None;
        }

        let pkg = if peer == 0 {
            self.p12.pop_front().unwrap()
        } else {
            self.p21.pop_front().unwrap()
        };
        let n = pkg.buf.len();
        data[..n].copy_from_slice(&pkg.buf);
        Some(n)
    }

    fn tick(&mut self, ms: u32) {
        self.current += ms;
    }
}

/// Hands what a peer has sent to the virtual network.
fn forward(kcp: &mut Kcp, sim: &mut LatencySimulator, peer: u32) {
    for pkt in kcp.output_mut().drain() {
        sim.send(peer, &pkt);
    }
}

#[derive(Clone, Copy)]
enum Mode {
    Default,
    Normal,
    Fast,
}

/// End-to-end reliability test over a lossy/delayed virtual network:
/// kcp1 sends 8-byte messages every 20ms, kcp2 echoes them back, and
/// kcp1 verifies it receives each sequence number exactly once in order.
fn run_lossy(mode: Mode, msgcount: u32, lostrate: u32) {
    let mut sim = LatencySimulator::new(lostrate, 60, 125, 1000);

    let mut kcp1 = Kcp::new(0x1122_3344, KcpWriter::default());
    let mut kcp2 = Kcp::new(0x1122_3344, KcpWriter::default());

    kcp1.set_wndsize(128, 128);
    kcp2.set_wndsize(128, 128);

    match mode {
        Mode::Default => {
            kcp1.set_nodelay(false, 10, 0, false);
            kcp2.set_nodelay(false, 10, 0, false);
        }
        Mode::Normal => {
            kcp1.set_nodelay(false, 10, 0, true);
            kcp2.set_nodelay(false, 10, 0, true);
        }
        Mode::Fast => {
            kcp1.set_nodelay(true, 10, 2, true);
            kcp2.set_nodelay(true, 10, 2, true);
            kcp1.set_rx_minrto(10);
            kcp2.set_fast_resend(1);
        }
    }

    let interval = 10u32;
    let mut current = 0u32;
    let mut slap = current + 20;
    let mut index = 0u32;
    let mut next = 0u32;

    let mut buf = [0u8; 2000];
    let mut guard = 0u32;
    while next <= msgcount {
        guard += 1;
        assert!(guard < 2_000_000, "run_lossy did not converge");

        sim.tick(interval);
        current += interval;
        kcp1.update(current).unwrap();
        forward(&mut kcp1, &mut sim, 0);
        kcp2.update(current).unwrap();
        forward(&mut kcp2, &mut sim, 1);

        // kcp1 sends one 8-byte message every 20ms.
        while current >= slap {
            let mut msg = Vec::with_capacity(8);
            msg.extend_from_slice(&index.to_le_bytes());
            msg.extend_from_slice(&current.to_le_bytes());
            kcp1.send(&msg).unwrap();
            index += 1;
            slap += 20;
        }

        // Deliver vnet p1 -> p2.
        loop {
            let n = match sim.recv(1, &mut buf) {
                None => break,
                Some(n) => n,
            };
            kcp2.input(&buf[..n]).unwrap();
        }

        // Deliver vnet p2 -> p1.
        loop {
            let n = match sim.recv(0, &mut buf) {
                None => break,
                Some(n) => n,
            };
            kcp1.input(&buf[..n]).unwrap();
        }

        // kcp2 echoes everything it received back to kcp1.
        loop {
            match kcp2.recv(&mut buf) {
                Err(..) => break,
                Ok(n) => {
                    kcp2.send(&buf[..n]).unwrap();
                }
            }
        }

        // kcp1 verifies the echoed messages arrive exactly in order.
        loop {
            match kcp1.recv(&mut buf) {
                Err(..) => break,
                Ok(_) => {
                    let sn = u32::from_le_bytes(buf[..4].try_into().unwrap());
                    assert_eq!(sn, next, "received out-of-order or duplicated data");
                    next += 1;
                }
            }
        }
    }
}

#[test]
fn link_lossy_default() {
    run_lossy(Mode::Default, 1000, 10);
}

#[test]
fn link_lossy_normal() {
    run_lossy(Mode::Normal, 1000, 10);
}

#[test]
fn link_lossy_fast() {
    run_lossy(Mode::Fast, 1000, 10);
}

#[test]
fn link_massive_loss_default() {
    run_lossy(Mode::Default, 500, 50);
}

#[test]
fn link_massive_loss_normal() {
    run_lossy(Mode::Normal, 500, 50);
}

#[test]
fn link_massive_loss_fast() {
    run_lossy(Mode::Fast, 500, 50);
}

#[test]
fn settings_are_kept_within_their_bounds() {
    let mut kcp = Kcp::new(1, KcpWriter::new());
    assert_eq!(Kcp::header_len(), KCP_OVERHEAD);
    assert!(!kcp.is_stream());
    assert!(!kcp.waiting_conv());
    kcp.set_conv(9);
    assert_eq!(kcp.conv(), 9);
    kcp.set_interval(1);
    kcp.set_maximum_resend_times(1);
    assert!(!kcp.is_dead_link());
    assert_eq!(kcp.flush_ack(), Err(Error::NeedUpdate));
    kcp.update(0).unwrap();
    assert_eq!(kcp.flush_ack(), Ok(()));
}

#[test]
fn a_link_without_answers_dies() {
    let mut kcp = Kcp::new(1, KcpWriter::new());
    kcp.set_nodelay(true, 10, 0, true);
    kcp.set_maximum_resend_times(2);
    kcp.send(b"x").unwrap();
    let mut now = 0u32;
    while !kcp.is_dead_link() {
        now += 10;
        assert!(now < 60_000, "the link must die");
        kcp.update(now).unwrap();
    }
}

/// Messages arrive whole and in their turn, though the datagrams come in reverse
/// and twice.
#[test]
fn messages_are_delivered_whatever_the_order() {
    let mut a = Kcp::new(9, KcpWriter::new());
    let mut b = Kcp::new(9, KcpWriter::new());
    a.set_nodelay(true, 10, 0, true);
    let msgs: Vec<Vec<u8>> = vec![
        b"one".to_vec(),
        (0..5000u32).map(|i| i as u8).collect(),
        Vec::new(),
        vec![7u8; 1376],
        b"last".to_vec(),
    ];
    for m in &msgs {
        assert_eq!(a.send(m), Ok(m.len()));
    }
    assert!(a.wait_snd() <= 32);
    a.update(0).unwrap();
    let datagrams = a.output_mut().drain();
    assert!(datagrams.len() > 3);
    for d in datagrams.iter().rev() {
        assert_eq!(b.input(d), Ok(d.len()));
        assert_eq!(b.input(d), Ok(d.len()));
    }
    let mut buf = vec![0u8; 8192];
    for m in &msgs {
        assert_eq!(b.recv(&mut buf), Ok(m.len()));
        assert_eq!(&buf[..m.len()], &m[..]);
    }
    assert_eq!(b.recv(&mut buf), Err(Error::RecvQueueEmpty));
}

/// Every datagram is within the MTU and made of whole segments.
#[test]
fn datagrams_are_whole_segments_within_the_mtu() {
    let mut a = Kcp::new(9, KcpWriter::new());
    a.set_mtu(200).unwrap();
    a.set_wndsize(0, 1);
    assert_eq!((a.snd_wnd(), a.rcv_wnd()), (32, 128));
    a.set_nodelay(true, 10, 0, true);
    for n in [1usize, 10, 176, 177, 1000] {
        a.send(&vec![n as u8; n]).unwrap();
    }
    for sn in 0..20 {
        a.input(&make_push(9, sn, 0, 0, b"x")).unwrap();
    }
    a.update(0).unwrap();
    let datagrams = a.output_mut().drain();
    assert!(!datagrams.is_empty());
    let (mut acks, mut payload) = (0, 0);
    for d in &datagrams {
        assert!(!d.is_empty() && d.len() <= 200);
        let mut at = 0;
        while at < d.len() {
            assert!(at + KCP_OVERHEAD <= d.len());
            let len = u32::from_le_bytes(d[at + 20..at + 24].try_into().unwrap()) as usize;
            if d[at + 4] == KCP_CMD_ACK {
                acks += 1;
            }
            payload += len;
            at += KCP_OVERHEAD + len;
        }
        assert_eq!(at, d.len());
    }
    assert_eq!((acks, payload), (20, 1 + 10 + 176 + 177 + 1000));
}

/// A segment that was fast retransmitted up to the limit is still sent again
/// when its time is up.
#[test]
fn rto_takes_over_past_the_fast_limit() {
    let mut a = Kcp::new(9, KcpWriter::new());
    a.set_nodelay(true, 10, 2, true);
    a.send(b"hello").unwrap();
    a.update(0).unwrap();
    assert_eq!(a.output_mut().drain().len(), 1);
    a.snd_buf[0].xmit = a.fastlimit + 1;
    a.snd_buf[0].fastack = 2;
    let due = a.snd_buf[0].resendts;
    a.update(due - 1).unwrap();
    assert!(a.output_mut().drain().is_empty());
    a.update(due + 10).unwrap();
    assert_eq!(a.output_mut().drain().len(), 1);
    assert_eq!((a.snd_buf[0].fastack, a.snd_buf[0].xmit), (0, a.fastlimit + 2));
}
