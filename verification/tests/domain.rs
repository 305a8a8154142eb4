use flux_throughput::crc::crc32;
use flux_throughput::domain::{WalRecord, WriteRequest, WAL_HEADER_LEN};
use flux_throughput::error::DecodeError;

#[test]
fn crc32_known_vector() {
    assert_eq!(crc32(b"123456789"), 0xCBF4_3926);
}

#[test]
fn crc32_empty() {
    assert_eq!(crc32(b""), 0x0000_0000);
}

#[test]
fn encode_decode_roundtrip() {
    let rec = WalRecord {
        lsn: 42,
        player_id: 7,
        version: 3,
        blob: vec![1, 2, 3, 4, 5],
    };
    let buf = rec.encode();
    let (decoded, consumed) = WalRecord::decode(&buf).unwrap();
    assert_eq!(decoded, rec);
    assert_eq!(consumed, buf.len());
}

#[test]
fn decode_truncated() {
    let rec = WalRecord {
        lsn: 1,
        player_id: 1,
        version: 1,
        blob: vec![9; 10],
    };
    let buf = rec.encode();
    assert_eq!(
        WalRecord::decode(&buf[..buf.len() - 1]),
        Err(DecodeError::Truncated)
    );
    assert_eq!(WalRecord::decode(&buf[..4]), Err(DecodeError::Truncated));
}

#[test]
fn decode_bad_magic() {
    let rec = WalRecord {
        lsn: 1,
        player_id: 1,
        version: 1,
        blob: vec![],
    };
    let mut buf = rec.encode();
    buf[0] ^= 0xFF;
    assert_eq!(WalRecord::decode(&buf), Err(DecodeError::BadMagic));
}

#[test]
fn decode_bad_crc() {
    let rec = WalRecord {
        lsn: 1,
        player_id: 1,
        version: 1,
        blob: vec![5, 6, 7],
    };
    let mut buf = rec.encode();
    let mid = WAL_HEADER_LEN + 1;
    buf[mid] ^= 0xFF;
    assert_eq!(WalRecord::decode(&buf), Err(DecodeError::BadCrc));
}

#[test]
fn decode_stream_of_two() {
    let a = WalRecord {
        lsn: 1,
        player_id: 10,
        version: 1,
        blob: vec![1],
    };
    let b = WalRecord {
        lsn: 2,
        player_id: 11,
        version: 2,
        blob: vec![2, 3],
    };
    let mut buf = a.encode();
    buf.extend_from_slice(&b.encode());

    let (da, na) = WalRecord::decode(&buf).unwrap();
    let (db, nb) = WalRecord::decode(&buf[na..]).unwrap();
    assert_eq!(da, a);
    assert_eq!(db, b);
    assert_eq!(na + nb, buf.len());
}

#[test]
fn frame_layout_is_fixed() {
    let rec = WalRecord {
        lsn: 0x0102_0304_0506_0708,
        player_id: 9,
        version: 10,
        blob: vec![0xAA, 0xBB],
    };
    let buf = rec.encode();
    assert_eq!(buf.len(), 42);
    assert_eq!(&buf[0..4], &[0x52, 0x58, 0x4C, 0x46]);
    assert_eq!(&buf[4..8], &[42, 0, 0, 0]);
    assert_eq!(&buf[8..16], &[8, 7, 6, 5, 4, 3, 2, 1]);
    assert_eq!(&buf[16..24], &[9, 0, 0, 0, 0, 0, 0, 0]);
    assert_eq!(&buf[24..32], &[10, 0, 0, 0, 0, 0, 0, 0]);
    assert_eq!(&buf[32..36], &[2, 0, 0, 0]);
    assert_eq!(&buf[36..38], &[0xAA, 0xBB]);
    assert_eq!(&buf[38..42], &crc32(&buf[..38]).to_le_bytes());
}

#[test]
fn every_damaged_byte_is_noticed() {
    let rec = WalRecord {
        lsn: 77,
        player_id: 5,
        version: 6,
        blob: vec![1, 2, 3],
    };
    let good = rec.encode();
    for i in 0..good.len() {
        let mut bad = good.clone();
        bad[i] ^= 0x10;
        let expected = if i < 4 {
            DecodeError::BadMagic
        } else if i < 8 || (32..36).contains(&i) {
            DecodeError::Truncated
        } else {
            DecodeError::BadCrc
        };
        assert_eq!(WalRecord::decode(&bad), Err(expected), "byte {i}");
    }
}

#[test]
fn every_cut_frame_is_truncated() {
    let rec = WalRecord {
        lsn: 1,
        player_id: 2,
        version: 3,
        blob: vec![4; 9],
    };
    let buf = rec.encode();
    for k in 0..buf.len() {
        assert_eq!(WalRecord::decode(&buf[..k]), Err(DecodeError::Truncated));
    }
}

#[test]
fn frame_shorter_than_a_frame_is_truncated() {
    let rec = WalRecord {
        lsn: 1,
        player_id: 2,
        version: 3,
        blob: vec![],
    };
    let mut buf = rec.encode();
    buf[4] = 39;
    assert_eq!(WalRecord::decode(&buf), Err(DecodeError::Truncated));
}

#[test]
fn to_state_drops_the_number() {
    let req = WriteRequest {
        player_id: 3,
        version: 4,
        blob: vec![5, 6],
        seq: 99,
    };
    let state = req.to_state();
    assert_eq!(state.player_id, 3);
    assert_eq!(state.version, 4);
    assert_eq!(state.blob, vec![5, 6]);
    assert_eq!(req.clone(), req);
}
