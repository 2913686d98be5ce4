use resonant_protocol::capability::Capability;
use resonant_protocol::crypto::seal_xchacha;
use resonant_protocol::transform::{prepare_payload, restore_payload};
use resonant_protocol::{
    strong_tail_hash, DType, Flags, FrameError, Modality, MsgType, Reassembler, SliceMeta, StreamEvent,
    StreamPhase, StreamState, VFrame, VFrameHeader,
};

fn payload_bytes() -> Vec<u8> {
    (0..100u32).map(|i| (i * 7 % 251) as u8).collect()
}

fn opened(total_len: u64, hash: u64) -> StreamState {
    let mut s = StreamState::new(9);
    s.on_head(total_len, 0, Some(hash), 1).unwrap();
    s
}

#[test]
fn stream_completes_with_matching_hash() {
    let bytes = payload_bytes();
    let h = strong_tail_hash(&bytes);
    assert_eq!(h, xxhash_rust::xxh3::xxh3_64(&bytes));
    let mut s = opened(100, h);
    s.on_data(1, &bytes[..40]).unwrap();
    s.on_heart(2).unwrap();
    s.on_data(3, &bytes[40..]).unwrap();
    let out = s.on_tail(4, h).unwrap();
    assert_eq!(out, bytes);
    assert_eq!(s.phase, StreamPhase::Completed);
}

#[test]
fn stream_detects_changed_byte() {
    let bytes = payload_bytes();
    let h = strong_tail_hash(&bytes);
    let mut changed = bytes.clone();
    changed[57] ^= 0x10;
    let mut s = opened(100, h);
    s.on_data(1, &changed).unwrap();
    assert_eq!(s.on_tail(2, h), Err(FrameError::StreamIntegrityMismatch));
    assert_eq!(s.phase, StreamPhase::Failed);
    assert!(s.accumulated.is_empty());
}

#[test]
fn stream_detects_wrong_length() {
    let bytes = payload_bytes();
    let h = strong_tail_hash(&bytes);
    let mut s = opened(101, h);
    s.on_data(1, &bytes).unwrap();
    assert_eq!(s.on_tail(2, h), Err(FrameError::LengthMismatch));
    assert_eq!(s.phase, StreamPhase::Failed);
}

#[test]
fn stream_out_of_order_frames() {
    for (seq, expected) in [(5u64, Err(FrameError::OutOfOrder)), (3, Err(FrameError::OutOfOrder)), (6, Ok(()))] {
        let mut s = opened(0, 0);
        s.on_data(5, &[1, 2]).unwrap();
        assert_eq!(s.last_seq, 5);
        assert_eq!(s.on_data(seq, &[3]), expected);
    }
    let mut s = opened(0, 0);
    s.on_data(5, &[1, 2]).unwrap();
    assert_eq!(s.on_heart(5), Err(FrameError::OutOfOrder));
    assert_eq!(s.phase, StreamPhase::Failed);
}

#[test]
fn stream_without_head_is_rejected() {
    let mut s = StreamState::new(3);
    assert_eq!(s.on_data(1, &[1]), Err(FrameError::MissingHead));
    assert_eq!(s.phase, StreamPhase::Failed);
    let mut s = StreamState::new(3);
    assert_eq!(s.on_tail(1, 0), Err(FrameError::MissingHead));
}

#[test]
fn finish_uses_given_hash() {
    let mut s = opened(2, 77);
    s.on_data(1, &[4, 5]).unwrap();
    assert_eq!(s.finish(2, 77, 76), Err(FrameError::StreamIntegrityMismatch));
    let mut s = opened(2, 77);
    s.on_data(1, &[4, 5]).unwrap();
    assert_eq!(s.finish(2, 77, 77), Ok(vec![4, 5]));
    let mut s = StreamState::new(1);
    s.on_head(2, 0, None, 0).unwrap();
    s.on_data(1, &[4, 5]).unwrap();
    assert_eq!(s.finish(2, 1, 2), Ok(vec![4, 5]));
}

#[test]
fn reassembler_keeps_streams_apart() {
    let bytes = payload_bytes();
    let h = strong_tail_hash(&bytes);
    let mut r = Reassembler::new();
    let head = StreamEvent::Head { total_len: 100, weak_hash: 0, strong_hash: Some(h), direction: 0 };
    assert_eq!(r.handle(1, &head, 10), Ok(None));
    assert_eq!(r.handle(2, &head, 10), Ok(None));
    assert_eq!(
        r.handle(2, &StreamEvent::Data { seq: 1, payload: vec![0] }, 11),
        Ok(None)
    );
    assert_eq!(
        r.handle(2, &StreamEvent::Data { seq: 1, payload: vec![0] }, 12),
        Err(FrameError::OutOfOrder)
    );
    assert!(!r.contains(2));
    assert!(r.contains(1));
    assert_eq!(
        r.handle(1, &StreamEvent::Data { seq: 1, payload: bytes.clone() }, 13),
        Ok(None)
    );
    assert_eq!(r.handle(1, &StreamEvent::Heart { seq: 2 }, 14), Ok(None));
    assert_eq!(
        r.handle(1, &StreamEvent::Tail { seq: 3, tail_hash: h }, 15),
        Ok(Some(bytes))
    );
    assert!(!r.contains(1));
    assert_eq!(
        r.handle(7, &StreamEvent::Heart { seq: 1 }, 15),
        Err(FrameError::MissingHead)
    );
    assert!(!r.contains(7));
}

#[test]
fn reassembler_evicts_idle_streams() {
    let mut r = Reassembler::new();
    let head = StreamEvent::Head { total_len: 1, weak_hash: 0, strong_hash: None, direction: 0 };
    r.handle(1, &head, 100).unwrap();
    r.handle(2, &head, 150).unwrap();
    r.handle(3, &head, 190).unwrap();
    let evicted = r.evict_idle(200, 60);
    assert_eq!(evicted.len(), 1);
    assert_eq!(evicted[0], 1);
    assert!(!r.contains(1));
    assert!(r.contains(2));
    assert!(r.contains(3));
    r.abandon(2);
    assert!(!r.contains(2));
    assert!(r.contains(3));
}

fn header(mtype: MsgType, space_hash32: u32) -> VFrameHeader {
    VFrameHeader {
        version: 1,
        mtype,
        flags: Flags::empty(),
        stream_id: 1,
        frame_seq: 1,
        num_slices: 1,
        slice_len: vec![1],
        space_hash32,
        modality: Modality::Text,
    }
}

#[test]
fn space_hash_gates_payload_frames() {
    let cap = Capability {
        method: "capability".to_string(),
        v: 1,
        agreed_proto: 1,
        d_model: 4096,
        embedding_space_id: "universal-llm-v3".to_string(),
        space_hash32: 2451163210,
        compress: vec!["zstd".to_string()],
        crypto: vec!["xchacha20poly1305".to_string()],
        supports: serde_json::Value::Null,
    };
    assert!(cap.admits(&header(MsgType::Think, 2451163210)));
    assert!(!cap.admits(&header(MsgType::Think, 1)));
    assert!(!cap.admits(&header(MsgType::Critique, 0)));
    assert!(cap.admits(&header(MsgType::Sync, 5)));
}

#[test]
fn payload_transforms_follow_flags() {
    let key = [7u8; 32];
    let nonce = [1u8; 24];
    let data = vec![5u8; 300];
    let plain = prepare_payload(Flags::empty(), &data, 3, &key, &nonce).unwrap();
    assert_eq!(plain, data);
    let packed = prepare_payload(Flags::zstd(), &data, 3, &key, &nonce).unwrap();
    assert!(packed.len() < data.len());
    let sealed = prepare_payload(Flags::xchacha(), &data, 3, &key, &nonce).unwrap();
    assert_eq!(sealed, seal_xchacha(&key, &nonce, &data).unwrap());
    assert_eq!(sealed.len(), data.len() + 16);
    let both = Flags::zstd().union(Flags::xchacha());
    let wire = prepare_payload(both, &data, 3, &key, &nonce).unwrap();
    assert_ne!(wire, data);
    assert_eq!(restore_payload(both, &wire, &key, &nonce).unwrap(), data);
    let only_packed = Flags::zstd();
    assert_eq!(restore_payload(only_packed, &packed, &key, &nonce).unwrap(), data);
    let only_sealed = Flags::xchacha();
    assert_eq!(restore_payload(only_sealed, &sealed, &key, &nonce).unwrap(), data);
    let mut forged = wire.clone();
    forged[0] ^= 1;
    assert_eq!(
        restore_payload(both, &forged, &key, &nonce),
        Err(FrameError::PayloadTransformFailure)
    );
}

#[test]
fn payload_frame_becomes_stream_event() {
    let frame = VFrame {
        hdr: header(MsgType::Critique, 1),
        slices: vec![
            (SliceMeta { dtype: DType::I8, shape: vec![2] }, vec![1, 2]),
            (SliceMeta { dtype: DType::I8, shape: vec![1] }, vec![3]),
        ],
        crc32: 0,
    };
    match StreamEvent::from_payload_frame(&frame) {
        StreamEvent::Data { seq, payload } => {
            assert_eq!(seq, 1);
            assert_eq!(payload, vec![1, 2, 3]);
        }
        _ => panic!("expected a data event"),
    }
    let empty = VFrame { hdr: header(MsgType::Think, 1), slices: vec![], crc32: 0 };
    assert!(matches!(StreamEvent::from_payload_frame(&empty), StreamEvent::Heart { seq: 1 }));
}
