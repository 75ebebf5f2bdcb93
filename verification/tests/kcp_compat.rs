//! The field, the erasure code and the packet codec built on them.
use frp_core::kcp_compat::gf256::{inv, mul, pow};
use frp_core::kcp_compat::{Fec, KcpCompatSession, XorBlock};

#[test]
fn test_mul_identity() {
    assert_eq!(mul(1, 42), 42);
    assert_eq!(mul(42, 1), 42);
}

#[test]
fn test_mul_distributive() {
    // (a + b) * c = a*c + b*c in GF(2^8) where + is XOR
    let a = 0x12u8;
    let b = 0x34u8;
    let c = 0x56u8;
    let left = mul(a ^ b, c);
    let right = mul(a, c) ^ mul(b, c);
    assert_eq!(left, right);
}

#[test]
fn test_inv() {
    assert_eq!(mul(5, inv(5)), 1);
    assert_eq!(mul(0xFF, inv(0xFF)), 1);
}

#[test]
fn test_pow() {
    // a^0 = 1
    assert_eq!(pow(42, 0), 1);
    // a^1 = a
    assert_eq!(pow(42, 1), 42);
    // a^2 = a * a
    assert_eq!(pow(42, 2), mul(42, 42));
}


/// Golden vectors of `klauspost/reedsolomon.New(10, 3)`: parity that differs
/// would recover garbage from a Go peer's shards.
#[test]
fn test_fec_klauspost_golden() {
    let d = 10usize;
    let mut data: Vec<Vec<u8>> = Vec::new();
    for i in 0..d {
        data.push(vec![
            (i + 1) as u8,
            (i * 7) as u8,
            (i * 13 + 5) as u8,
            (255 - i) as u8,
        ]);
    }
    let refs: Vec<&[u8]> = data.iter().map(|v| v.as_slice()).collect();
    let fec = Fec::new(10, 3);
    let out = fec.encode(&refs);

    // Parity bytes must match klauspost exactly.
    assert_eq!(out[10], vec![0x45, 0x98, 0x0a, 0xf5], "parity[10] != klauspost");
    assert_eq!(out[11], vec![0xf2, 0xb4, 0x9a, 0xf4], "parity[11] != klauspost");
    assert_eq!(out[12], vec![0x12, 0xdc, 0x0d, 0xf3], "parity[12] != klauspost");

    // Reconstruct a lost data shard (drop #3, keep all parity).
    let mut shards: Vec<Option<Vec<u8>>> = out.iter().map(|s| Some(s.clone())).collect();
    let orig3 = shards[3].clone().unwrap();
    shards[3] = None;
    assert!(fec.decode(&mut shards), "decode should reconstruct");
    assert_eq!(shards[3].as_ref().unwrap(), &orig3, "reconstructed shard[3] wrong");
}

#[test]
fn test_xor_roundtrip() {
    let xor = XorBlock::new(b"test-key");
    let mut data = b"hello world".to_vec();
    xor.process(&mut data);
    assert_ne!(data, b"hello world".to_vec());
    xor.process(&mut data);
    assert_eq!(data, b"hello world".to_vec());
}

#[test]
fn test_xor_empty_key() {
    let xor = XorBlock::new(b"");
    let mut data = b"hello world".to_vec();
    xor.process(&mut data);
    assert_eq!(data, b"hello world".to_vec());
}

#[test]
fn test_fec_encode_decode_no_loss() {
    let fec = Fec::new(2, 1); // 2 data + 1 parity
    let input: Vec<&[u8]> = vec![b"abcd", b"efgh"];
    let mut shards: Vec<Option<Vec<u8>>> = fec.encode(&input).into_iter().map(Some).collect();

    // Remove one shard (simulate loss) and reconstruct
    shards[1] = None;
    assert!(fec.decode(&mut shards));
    assert_eq!(shards[1].as_ref().unwrap(), b"efgh");
}

#[test]
fn test_fec_parity_loss_reconstruction() {
    let fec = Fec::new(2, 1);
    let input: Vec<&[u8]> = vec![b"abcd", b"efgh"];
    let mut shards: Vec<Option<Vec<u8>>> = fec.encode(&input).into_iter().map(Some).collect();

    // Remove the parity shard (index 2) — all data shards present, should succeed
    shards[2] = None;
    assert!(fec.decode(&mut shards));
    assert_eq!(shards[0].as_ref().unwrap(), b"abcd");
    assert_eq!(shards[1].as_ref().unwrap(), b"efgh");
}

#[test]
fn test_fec_insufficient_shards() {
    let fec = Fec::new(2, 1);
    let input: Vec<&[u8]> = vec![b"abcd", b"efgh"];
    let mut shards: Vec<Option<Vec<u8>>> = fec.encode(&input).into_iter().map(Some).collect();

    // Remove 2 shards — only 1 remains, need at least 2
    shards[0] = None;
    shards[1] = None;
    assert!(!fec.decode(&mut shards));
}

#[test]
fn test_fec_disabled() {
    let fec = Fec::new(0, 0);
    assert!(!fec.enabled());
    let input: Vec<&[u8]> = vec![b"test"];
    let output = fec.encode(&input);
    assert_eq!(output.len(), 1);
    assert_eq!(output[0], b"test");
}

#[test]
fn test_kcp_compat_session_roundtrip() {
    let session = KcpCompatSession::new(2, 1, b"my-xor-key");
    let data = b"hello kcp compat test message!";

    let encoded = session.encode_packet(data);
    assert_eq!(encoded.len(), 3); // 2 data + 1 parity

    // Simulate all shards received
    let mut received: Vec<Option<Vec<u8>>> = encoded.into_iter().map(Some).collect();
    let decoded = session.decode_packets(&mut received).unwrap();
    assert_eq!(&decoded[..data.len()], data);
}

#[test]
fn test_kcp_compat_session_roundtrip_with_loss() {
    let session = KcpCompatSession::new(3, 2, b""); // 3 data + 2 parity, no XOR
    let data = b"this is a test message for FEC recovery with data loss";

    let encoded = session.encode_packet(data);
    assert_eq!(encoded.len(), 5);

    // Simulate loss of 2 data shards — should recover from remaining 1 data + 2 parity
    let mut received: Vec<Option<Vec<u8>>> = encoded.into_iter().map(Some).collect();
    received[0] = None;
    received[1] = None;
    let decoded = session.decode_packets(&mut received).unwrap();
    assert_eq!(&decoded[..data.len()], data);
}

#[test]
fn test_kcp_compat_session_no_fec() {
    let session = KcpCompatSession::new(0, 0, b"xor-key");
    let data = b"test data";
    let encoded = session.encode_packet(data);
    assert_eq!(encoded.len(), 1);
    let mut received: Vec<Option<Vec<u8>>> = encoded.into_iter().map(Some).collect();
    let decoded = session.decode_packets(&mut received).unwrap();
    assert_eq!(&decoded[..data.len()], data);
}

#[test]
fn test_kcp_compat_session_no_xor_no_fec() {
    let session = KcpCompatSession::new(0, 0, b"");
    let data = b"plain kcp data, no encoding at all";
    let encoded = session.encode_packet(data);
    assert_eq!(encoded.len(), 1);
    assert_eq!(encoded[0], data);

    let mut received: Vec<Option<Vec<u8>>> = encoded.into_iter().map(Some).collect();
    let decoded = session.decode_packets(&mut received).unwrap();
    assert_eq!(decoded, data);
}

#[test]
fn every_element_but_zero_has_an_inverse() {
    for a in 1..=255u8 {
        assert_eq!(mul(a, inv(a)), 1);
    }
    assert_eq!(inv(0), 0);
}

#[test]
fn any_enough_shards_recover_all_data() {
    let fec = Fec::new(3, 2);
    let input: Vec<&[u8]> = vec![b"one!", b"two!", b"3333"];
    let all = fec.encode(&input);
    for a in 0..5usize {
        for b in 0..a {
            let mut shards: Vec<Option<Vec<u8>>> = all.iter().cloned().map(Some).collect();
            shards[a] = None;
            shards[b] = None;
            assert!(fec.decode(&mut shards));
            for i in 0..3usize {
                assert_eq!(shards[i].as_ref().unwrap().as_slice(), input[i]);
            }
        }
    }
}

#[test]
fn sessions_know_what_they_do() {
    let both = KcpCompatSession::new(2, 1, b"key");
    assert!(both.fec_enabled() && both.xor_enabled());
    let none = KcpCompatSession::new(0, 0, b"");
    assert!(!none.fec_enabled() && !none.xor_enabled());
}

#[test]
fn a_disabled_code_takes_any_shards() {
    let fec = Fec::new(0, 0);
    let mut shards = vec![Some(vec![1, 2, 3]), None, Some(vec![4])];
    assert!(fec.decode(&mut shards));
    assert_eq!(shards, vec![Some(vec![1, 2, 3]), None, Some(vec![4])]);
}

#[test]
fn only_shards_that_are_read_need_their_length() {
    let fec = Fec::new(2, 2);
    // No data shard is missing: nothing is read.
    let mut shards = vec![Some(vec![1, 2, 3]), Some(vec![4]), None, Some(vec![])];
    assert!(fec.decode(&mut shards));
    assert_eq!(shards, vec![Some(vec![1, 2, 3]), Some(vec![4]), None, Some(vec![])]);
    // A short shard that is not selected does no harm.
    let input: Vec<&[u8]> = vec![b"abcd", b"efgh"];
    let mut shards: Vec<Option<Vec<u8>>> = fec.encode(&input).into_iter().map(Some).collect();
    shards[0] = None;
    shards[3] = Some(vec![7]);
    assert!(fec.decode(&mut shards));
    assert_eq!(shards[0].as_ref().unwrap(), b"abcd");
}
