use resonant_protocol::compress::{zstd_compress, zstd_decompress};
use resonant_protocol::crypto::{open_xchacha, seal_xchacha};
use resonant_protocol::{
    expected_payload_size, DType, Flags, FrameError, Modality, MsgType, SliceMeta, VFrame,
    VFrameHeader,
};

fn frame_with(
    mtype: MsgType,
    flags: Flags,
    stream_id: u32,
    frame_seq: u64,
    slice_len: Vec<u32>,
    slices: Vec<(SliceMeta, Vec<u8>)>,
) -> VFrame {
    VFrame {
        hdr: VFrameHeader {
            version: 1,
            mtype,
            flags,
            stream_id,
            frame_seq,
            num_slices: slices.len() as u64,
            slice_len,
            space_hash32: 2451163210,
            modality: Modality::Text,
        },
        slices,
        crc32: 0,
    }
}

#[test]
fn test_compress_decompress() {
    let data = b"Hello, Resonant Protocol!";
    let compressed = zstd_compress(data, 3).unwrap();
    let decompressed = zstd_decompress(&compressed).unwrap();
    assert_eq!(data, decompressed.as_slice());
}

#[test]
fn test_encrypt_decrypt() {
    let key = [42u8; 32];
    let nonce = [13u8; 24];
    let plaintext = b"Secret message";

    let ciphertext = seal_xchacha(&key, &nonce, plaintext).unwrap();
    let decrypted = open_xchacha(&key, &nonce, &ciphertext).unwrap();

    assert_eq!(plaintext, decrypted.as_slice());
}

#[test]
fn test_vframe_encode_decode() {
    let frame = VFrame {
        hdr: VFrameHeader {
            version: 1,
            mtype: MsgType::Think,
            flags: Flags::zstd(),
            stream_id: 0x1234,
            frame_seq: 2,
            num_slices: 1,
            slice_len: vec![8],
            space_hash32: 2451163210,
            modality: Modality::Text,
        },
        slices: vec![(
            SliceMeta {
                dtype: DType::F16,
                shape: vec![1, 4],
            },
            vec![0u8; 8],
        )],
        crc32: 0,
    };

    let encoded = frame.encode().unwrap();
    let decoded = VFrame::decode(&encoded).unwrap();

    assert_eq!(decoded.hdr.version, 1);
    assert_eq!(decoded.hdr.mtype, MsgType::Think);
    assert_eq!(decoded.slices.len(), 1);
}

#[test]
fn test_encode_rejects_mismatched_lengths() {
    let frame = VFrame {
        hdr: VFrameHeader {
            version: 1,
            mtype: MsgType::Think,
            flags: Flags::empty(),
            stream_id: 0,
            frame_seq: 0,
            num_slices: 1,
            slice_len: vec![4],
            space_hash32: 0,
            modality: Modality::Text,
        },
        slices: vec![(
            SliceMeta {
                dtype: DType::F16,
                shape: vec![1, 4],
            },
            vec![0u8; 8],
        )],
        crc32: 0,
    };

    assert!(frame.encode().is_err());
}

#[test]
fn test_q4_roundtrip_validates_shape() {
    let frame = VFrame {
        hdr: VFrameHeader {
            version: 1,
            mtype: MsgType::Think,
            flags: Flags::empty(),
            stream_id: 1,
            frame_seq: 42,
            num_slices: 1,
            slice_len: vec![4],
            space_hash32: 2451163210,
            modality: Modality::Text,
        },
        slices: vec![(
            SliceMeta {
                dtype: DType::Q4,
                shape: vec![1, 8],
            },
            vec![0u8; 4],
        )],
        crc32: 0,
    };

    let encoded = frame.encode().unwrap();
    let decoded = VFrame::decode(&encoded).unwrap();
    assert_eq!(decoded.hdr.slice_len, vec![4]);
    assert_eq!(decoded.slices[0].0.dtype, DType::Q4);
}

#[test]
fn test_decode_rejects_invalid_len_vs_shape() {
    let frame = VFrame {
        hdr: VFrameHeader {
            version: 1,
            mtype: MsgType::Think,
            flags: Flags::empty(),
            stream_id: 7,
            frame_seq: 1,
            num_slices: 1,
            slice_len: vec![8],
            space_hash32: 0,
            modality: Modality::Text,
        },
        slices: vec![(
            SliceMeta {
                dtype: DType::F16,
                shape: vec![2, 2],
            },
            vec![0u8; 8],
        )],
        crc32: 0,
    };

    let mut encoded = frame.encode().unwrap();
    encoded[24..28].copy_from_slice(&(2u32).to_le_bytes());
    let payload_len = frame.slices[0].1.len();
    let payload_offset = encoded.len() - 4 - payload_len;
    encoded.drain(payload_offset + 2..payload_offset + payload_len);
    let len = encoded.len();
    let crc = crc32fast::hash(&encoded[..len - 4]);
    encoded[len - 4..].copy_from_slice(&crc.to_le_bytes());

    let err = VFrame::decode(&encoded).unwrap_err();
    assert!(
        err == FrameError::ShapeDtypeMismatch,
        "unexpected error: {err:?}"
    );
}

#[test]
fn encoded_layout_is_byte_exact() {
    let frame = frame_with(
        MsgType::Critique,
        Flags::strong_tail(),
        0x0102_0304,
        0x1122,
        vec![2],
        vec![(
            SliceMeta {
                dtype: DType::I8,
                shape: vec![2],
            },
            vec![0xaa, 0xbb],
        )],
    );
    let bytes = frame.encode().unwrap();
    let mut expected: Vec<u8> = vec![1, 4, 4, 0, 4, 3, 2, 1];
    expected.extend_from_slice(&0x1122u64.to_le_bytes());
    expected.extend_from_slice(&1u64.to_le_bytes());
    expected.extend_from_slice(&2u32.to_le_bytes());
    expected.extend_from_slice(&2451163210u32.to_le_bytes());
    expected.push(0);
    expected.extend_from_slice(&[0x02, 1, 2, 0, 0, 0, 0xaa, 0xbb]);
    let crc = crc32fast::hash(&expected);
    expected.extend_from_slice(&crc.to_le_bytes());
    assert_eq!(bytes, expected);
}

#[test]
fn decoded_frame_keeps_every_field() {
    let frame = frame_with(
        MsgType::Cache,
        Flags::zstd().union(Flags::xchacha()),
        99,
        7,
        vec![3],
        vec![(
            SliceMeta {
                dtype: DType::SparseCoo,
                shape: vec![5, 5],
            },
            vec![1, 2, 3],
        )],
    );
    let bytes = frame.encode().unwrap();
    let back = VFrame::decode(&bytes).unwrap();
    assert_eq!(back.hdr.mtype, MsgType::Cache);
    assert_eq!(back.hdr.flags.bits(), 3);
    assert_eq!(back.hdr.stream_id, 99);
    assert_eq!(back.hdr.frame_seq, 7);
    assert_eq!(back.hdr.num_slices, 1);
    assert_eq!(back.hdr.space_hash32, 2451163210);
    assert_eq!(back.hdr.modality, Modality::Text);
    assert_eq!(back.slices[0].0.shape, vec![5, 5]);
    assert_eq!(back.slices[0].1, vec![1, 2, 3]);
    let len = bytes.len();
    assert_eq!(back.crc32, crc32fast::hash(&bytes[..len - 4]));
}

#[test]
fn single_byte_tamper_is_detected() {
    let frame = frame_with(
        MsgType::Think,
        Flags::empty(),
        5,
        3,
        vec![8],
        vec![(
            SliceMeta {
                dtype: DType::I8,
                shape: vec![8],
            },
            vec![9u8; 8],
        )],
    );
    let bytes = frame.encode().unwrap();
    for pos in 0..bytes.len() - 4 {
        let mut tampered = bytes.clone();
        tampered[pos] ^= 0x01;
        assert!(VFrame::decode(&tampered).is_err(), "flip at {pos} went unnoticed");
    }
    let mut tampered = bytes.clone();
    let last_payload = bytes.len() - 5;
    tampered[last_payload] ^= 0x80;
    assert_eq!(
        VFrame::decode(&tampered).unwrap_err(),
        FrameError::ChecksumMismatch
    );
}

#[test]
fn f16_shape_size_is_exact() {
    assert_eq!(expected_payload_size(DType::F16, &[1, 2048]), Ok(Some(4096)));
    assert_eq!(expected_payload_size(DType::I8, &[3, 5]), Ok(Some(15)));
    assert_eq!(expected_payload_size(DType::Q4, &[1, 7]), Ok(Some(4)));
    assert_eq!(expected_payload_size(DType::SparseCoo, &[4]), Ok(None));
    assert_eq!(
        expected_payload_size(DType::F16, &[]),
        Err(FrameError::ShapeDtypeMismatch)
    );
    assert_eq!(expected_payload_size(DType::I8, &[65537]), Ok(Some(65537)));
    assert_eq!(expected_payload_size(DType::F16, &[70000]), Ok(Some(140000)));
    assert_eq!(expected_payload_size(DType::Q4, &[3, 100001]), Ok(Some(150002)));
    assert_eq!(
        expected_payload_size(DType::F16, &[u32::MAX, u32::MAX]),
        Err(FrameError::ShapeDtypeMismatch)
    );
    assert_eq!(
        expected_payload_size(DType::I8, &[u32::MAX, u32::MAX]),
        Ok(Some((u32::MAX as usize) * (u32::MAX as usize)))
    );
    assert_eq!(expected_payload_size(DType::I8, &[65536, 1]), Ok(Some(65536)));
    assert_eq!(
        expected_payload_size(DType::F16, &[u32::MAX, u32::MAX, 0]),
        Ok(Some(0))
    );
    for wrong in [4095usize, 4097, 2048] {
        let frame = frame_with(
            MsgType::Think,
            Flags::empty(),
            1,
            1,
            vec![wrong as u32],
            vec![(
                SliceMeta {
                    dtype: DType::F16,
                    shape: vec![1, 2048],
                },
                vec![0u8; wrong],
            )],
        );
        assert_eq!(frame.encode(), Err(FrameError::ShapeDtypeMismatch));
    }
    let frame = frame_with(
        MsgType::Think,
        Flags::empty(),
        1,
        1,
        vec![4096],
        vec![(
            SliceMeta {
                dtype: DType::F16,
                shape: vec![1, 2048],
            },
            vec![0u8; 4095],
        )],
    );
    assert_eq!(frame.encode(), Err(FrameError::LengthMismatch));
}

#[test]
fn two_slices_keep_their_boundaries() {
    let text = b"{\"note\":\"divergence at dims [3,17]\"}".to_vec();
    let n = text.len() as u32;
    let vector: Vec<u8> = (0..32u8).collect();
    let frame = frame_with(
        MsgType::Critique,
        Flags::empty(),
        0x1234,
        3,
        vec![32, n],
        vec![
            (
                SliceMeta {
                    dtype: DType::I8,
                    shape: vec![32],
                },
                vector.clone(),
            ),
            (
                SliceMeta {
                    dtype: DType::SparseCoo,
                    shape: vec![n],
                },
                text.clone(),
            ),
        ],
    );
    let back = VFrame::decode(&frame.encode().unwrap()).unwrap();
    assert_eq!(back.hdr.num_slices, 2);
    assert_eq!(back.hdr.slice_len, vec![32, n]);
    assert_eq!(back.slices.len(), 2);
    assert_eq!(back.slices[0].1, vector);
    assert_eq!(back.slices[1].1, text);
    assert_eq!(back.slices[1].0.dtype, DType::SparseCoo);
}

#[test]
fn encode_structural_errors() {
    let slice = (
        SliceMeta {
            dtype: DType::I8,
            shape: vec![2],
        },
        vec![1u8, 2],
    );
    let mut frame = frame_with(MsgType::Ask, Flags::empty(), 1, 1, vec![2], vec![slice.clone()]);
    frame.hdr.num_slices = 2;
    assert_eq!(frame.encode(), Err(FrameError::StructuralMismatch));
    let frame = frame_with(MsgType::Ask, Flags::empty(), 1, 1, vec![], vec![slice.clone()]);
    assert_eq!(frame.encode(), Err(FrameError::StructuralMismatch));
    let frame = frame_with(
        MsgType::Ask,
        Flags::empty(),
        1,
        1,
        vec![2],
        vec![slice.clone(), slice.clone()],
    );
    assert_eq!(frame.encode(), Err(FrameError::StructuralMismatch));
    let frame = frame_with(MsgType::Ask, Flags::empty(), 1, 1, vec![2, 2], vec![slice]);
    assert_eq!(frame.encode(), Err(FrameError::StructuralMismatch));
}

#[test]
fn encode_rejects_oversized_frame() {
    let frame = frame_with(
        MsgType::Think,
        Flags::empty(),
        1,
        1,
        vec![65536],
        vec![(
            SliceMeta {
                dtype: DType::I8,
                shape: vec![65536],
            },
            vec![0u8; 65536],
        )],
    );
    assert_eq!(frame.encode(), Err(FrameError::FrameTooLarge));
}

#[test]
fn decode_error_kinds() {
    let frame = frame_with(
        MsgType::Think,
        Flags::empty(),
        1,
        1,
        vec![2],
        vec![(
            SliceMeta {
                dtype: DType::I8,
                shape: vec![2],
            },
            vec![1, 2],
        )],
    );
    let good = frame.encode().unwrap();
    assert_eq!(VFrame::decode(&good[..27]).unwrap_err(), FrameError::Truncated);
    assert_eq!(
        VFrame::decode(&good[..good.len() - 1]).unwrap_err(),
        FrameError::Truncated
    );

    let mut bad = good.clone();
    bad[1] = 9;
    assert_eq!(VFrame::decode(&bad).unwrap_err(), FrameError::InvalidEnum);
    let mut bad = good.clone();
    bad[2] = 8;
    assert_eq!(VFrame::decode(&bad).unwrap_err(), FrameError::InvalidEnum);
    let mut bad = good.clone();
    bad[32] = 7;
    assert_eq!(VFrame::decode(&bad).unwrap_err(), FrameError::InvalidEnum);
    let mut bad = good.clone();
    bad[33] = 0x04;
    assert_eq!(VFrame::decode(&bad).unwrap_err(), FrameError::InvalidEnum);

    let mut bad = good.clone();
    bad[16..24].copy_from_slice(&0u64.to_le_bytes());
    assert_eq!(
        VFrame::decode(&bad).unwrap_err(),
        FrameError::EmptySliceLengths
    );

    let mut bad = good.clone();
    bad[24..28].copy_from_slice(&1000u32.to_le_bytes());
    bad[33] = 0x10;
    assert_eq!(
        VFrame::decode(&bad).unwrap_err(),
        FrameError::DeclaredLengthExceedsFrame
    );
}

#[test]
fn heart_frame_encodes_but_does_not_decode() {
    let frame = frame_with(MsgType::Think, Flags::empty(), 1, 4, vec![0], vec![]);
    let bytes = frame.encode().unwrap();
    assert_eq!(bytes.len(), 37);
    assert_eq!(
        VFrame::decode(&bytes).unwrap_err(),
        FrameError::EmptySliceLengths
    );
}

#[test]
fn flags_round_trip_through_bits() {
    assert_eq!(Flags::from_bits(5).unwrap().bits(), 5);
    assert!(Flags::from_bits(8).is_none());
    let f = Flags::zstd().union(Flags::strong_tail());
    assert!(f.contains(Flags::zstd()));
    assert!(!f.contains(Flags::xchacha()));
    assert_eq!(MsgType::from_u8(3), Some(MsgType::Sync));
    assert_eq!(MsgType::from_u8(5), None);
    assert_eq!(DType::from_u8(0x10), Some(DType::SparseCoo));
    assert_eq!(DType::from_u8(0x04), None);
    assert_eq!(Modality::from_u8(4), Some(Modality::Mixed));
    assert_eq!(Modality::from_u8(5), None);
}

#[test]
fn sparse_shape_with_overflowing_count_is_rejected() {
    assert_eq!(
        expected_payload_size(DType::SparseCoo, &[u32::MAX, u32::MAX, u32::MAX]),
        Err(FrameError::ShapeDtypeMismatch)
    );
    assert_eq!(
        expected_payload_size(DType::SparseCoo, &[u32::MAX, u32::MAX, u32::MAX, 0]),
        Ok(None)
    );
    let frame = frame_with(
        MsgType::Think,
        Flags::empty(),
        1,
        1,
        vec![3],
        vec![(
            SliceMeta {
                dtype: DType::SparseCoo,
                shape: vec![u32::MAX, u32::MAX, u32::MAX],
            },
            vec![1, 2, 3],
        )],
    );
    assert_eq!(frame.encode(), Err(FrameError::ShapeDtypeMismatch));
}

#[test]
fn decode_rejects_bytes_after_checksum_and_oversized_buffers() {
    let frame = frame_with(
        MsgType::Think,
        Flags::empty(),
        1,
        1,
        vec![2],
        vec![(
            SliceMeta {
                dtype: DType::I8,
                shape: vec![2],
            },
            vec![1, 2],
        )],
    );
    let good = frame.encode().unwrap();
    let mut longer = good.clone();
    longer.extend_from_slice(&[0, 0, 0, 0]);
    let len = longer.len();
    let crc = crc32fast::hash(&longer[..len - 4]);
    longer[len - 8..len - 4].copy_from_slice(&crc.to_le_bytes());
    longer[len - 4..].copy_from_slice(&crc.to_le_bytes());
    assert_eq!(
        VFrame::decode(&longer).unwrap_err(),
        FrameError::StructuralMismatch
    );
    let mut huge = good.clone();
    huge.resize(65537, 0);
    assert_eq!(VFrame::decode(&huge).unwrap_err(), FrameError::FrameTooLarge);
}

#[test]
fn consistent_slice_over_the_ceiling_is_too_large() {
    let frame = frame_with(
        MsgType::Think,
        Flags::empty(),
        1,
        1,
        vec![70000],
        vec![(
            SliceMeta {
                dtype: DType::I8,
                shape: vec![70000],
            },
            vec![0u8; 70000],
        )],
    );
    assert_eq!(frame.encode(), Err(FrameError::FrameTooLarge));
}
