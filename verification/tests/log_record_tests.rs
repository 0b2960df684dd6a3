use bitcask_rs::error::Errors;
use bitcask_rs::log_record::{
    decode_log_record, decode_log_record_pos, max_log_record_header_size, LogRecord, LogRecordPos,
    LogRecordType,
};

#[test]
fn test_log_record_encode() {
    let rec1 = LogRecord {
        key: "name".as_bytes().to_vec(),
        value: "bitcask-rs".as_bytes().to_vec(),
        rec_type: LogRecordType::Normal,
    };
    let _ = rec1.encode();

    let rec2 = LogRecord {
        key: "name".as_bytes().to_vec(),
        value: Default::default(),
        rec_type: LogRecordType::Normal,
    };
    let enc2 = rec2.encode();
    assert!(enc2.len() > 5);

    let rec3 = LogRecord {
        key: "name".as_bytes().to_vec(),
        value: "bitcask-rs".as_bytes().to_vec(),
        rec_type: LogRecordType::Deleted,
    };
    let _ = rec3.encode();
}

#[test]
fn test_log_record_roundtrip() {
    let rec = LogRecord {
        key: "name".as_bytes().to_vec(),
        value: "bitcask-rs".as_bytes().to_vec(),
        rec_type: LogRecordType::Normal,
    };
    let enc = rec.encode();
    let read = decode_log_record(&enc, 0).expect("decode failed");
    assert_eq!(read.record.key, rec.key);
    assert_eq!(read.record.value, rec.value);
    assert_eq!(read.record.rec_type, rec.rec_type);
    assert_eq!(read.size as usize, enc.len());
}

#[test]
fn test_log_record_corruption_fails() {
    let rec = LogRecord {
        key: "name".as_bytes().to_vec(),
        value: "bitcask-rs".as_bytes().to_vec(),
        rec_type: LogRecordType::Normal,
    };
    let enc = rec.encode();
    // flip one byte anywhere in the record: decoding must not return it
    for i in 0..enc.len() {
        let mut bad = enc.clone();
        bad[i] ^= 0x40;
        match decode_log_record(&bad, 0) {
            Ok(read) => {
                // a changed length field may still parse; the record must differ
                assert!(
                    read.record.key != rec.key
                        || read.record.value != rec.value
                        || read.record.rec_type != rec.rec_type
                );
            }
            Err(e) => {
                assert!(e == Errors::InvalidLogRecordCrc || e == Errors::ReadDataFileEOF);
            }
        }
    }
}

#[test]
fn test_decode_eof_sentinel() {
    let empty: Vec<u8> = Vec::new();
    assert_eq!(decode_log_record(&empty, 0).unwrap_err(), Errors::ReadDataFileEOF);
    let zeros = vec![0u8; 32];
    assert_eq!(decode_log_record(&zeros, 0).unwrap_err(), Errors::ReadDataFileEOF);
}

#[test]
fn test_from_u8() {
    assert_eq!(LogRecordType::from_u8(0), LogRecordType::Normal);
    assert_eq!(LogRecordType::from_u8(1), LogRecordType::Deleted);
    assert_eq!(LogRecordType::from_u8(2), LogRecordType::TxnFinished);
}

#[test]
fn test_max_header_size() {
    assert_eq!(max_log_record_header_size(), 11);
}

#[test]
fn test_log_record_pos_roundtrip() {
    let pos = LogRecordPos { file_id: 3, offset: 912, size: 77 };
    let enc = pos.encode();
    assert_eq!(decode_log_record_pos(&enc), Some(pos));
}
