use xadb::logcat::{LogBuffer, LogLevel, LogcatBinaryDecoder, LogcatDecodeError};

fn entry(hdr_size: u16, pid: i32, tid: u32, sec: u32, nsec: u32, lid: Option<u32>, uid: Option<u32>, payload: &[u8]) -> Vec<u8> {
    let mut v = Vec::new();
    v.extend_from_slice(&(payload.len() as u16).to_le_bytes());
    v.extend_from_slice(&hdr_size.to_le_bytes());
    v.extend_from_slice(&pid.to_le_bytes());
    v.extend_from_slice(&tid.to_le_bytes());
    v.extend_from_slice(&sec.to_le_bytes());
    v.extend_from_slice(&nsec.to_le_bytes());
    if hdr_size >= 24 {
        v.extend_from_slice(&lid.unwrap_or(0).to_le_bytes());
    }
    if hdr_size >= 28 {
        v.extend_from_slice(&uid.unwrap_or(0).to_le_bytes());
    }
    while v.len() < hdr_size as usize {
        v.push(0);
    }
    v.extend_from_slice(payload);
    v
}

#[test]
fn binary_text_entry_example() {
    let bytes = entry(28, 1234, 5678, 1_667_523_026, 234_185_959, Some(0), Some(1000), b"\x03AB\0hi");
    assert_eq!(bytes.len(), 28 + 6);
    let mut buf = bytes.clone();
    buf.extend_from_slice(b"xy");
    let m = LogcatBinaryDecoder::new().decode(&mut buf).unwrap().unwrap();
    assert_eq!(buf, b"xy".to_vec());
    assert_eq!(m.pid, 1234);
    assert_eq!(m.tid, 5678);
    assert_eq!(m.lid, Some(0));
    assert_eq!(m.uid, Some(1000));
    assert_eq!(m.timestamp.unix_seconds, 1_667_523_026);
    assert_eq!(m.timestamp.nanos, 234_185_959);
    match m.buffer {
        LogBuffer::TextLog(t) => {
            assert_eq!(t.level, LogLevel::Debug);
            assert_eq!(t.tag, "AB");
            assert_eq!(t.message, "hi");
        }
        other => panic!("unexpected {:?}", other),
    }
}

#[test]
fn binary_event_entry_reads_tag() {
    let mut buf = entry(24, -5, 1, 10, 0, Some(2), None, &[0x10, 0x27, 0, 0, 9, 9]);
    let m = LogcatBinaryDecoder::new().decode(&mut buf).unwrap().unwrap();
    assert!(buf.is_empty());
    assert_eq!(m.pid, -5);
    assert_eq!(m.uid, None);
    match m.buffer {
        LogBuffer::BinaryLog(b) => assert_eq!(b.tag, 10000),
        other => panic!("unexpected {:?}", other),
    }
}

#[test]
fn binary_v1_header_has_no_log_id() {
    let mut buf = entry(20, 1, 2, 3, 4, None, None, b"\x06tag\0boom");
    let m = LogcatBinaryDecoder::new().decode(&mut buf).unwrap().unwrap();
    assert_eq!(m.lid, None);
    assert_eq!(m.uid, None);
    match m.buffer {
        LogBuffer::TextLog(t) => {
            assert_eq!(t.level, LogLevel::Error);
            assert_eq!(t.tag, "tag");
            assert_eq!(t.message, "boom");
        }
        other => panic!("unexpected {:?}", other),
    }
}

#[test]
fn binary_message_trims_trailing_non_ascii() {
    let mut buf = entry(28, 1, 2, 3, 4, Some(3), Some(0), b"\x09t\0ok\xc3\xa9\0");
    let m = LogcatBinaryDecoder::new().decode(&mut buf).unwrap().unwrap();
    match m.buffer {
        LogBuffer::TextLog(t) => {
            assert_eq!(t.level, LogLevel::Other(9));
            assert_eq!(t.message, "ok");
        }
        other => panic!("unexpected {:?}", other),
    }
}

#[test]
fn binary_every_truncation_waits() {
    let bytes = entry(28, 1234, 5678, 1, 2, Some(0), Some(0), b"\x04tag\0message\0");
    let mut dec = LogcatBinaryDecoder::new();
    for k in 0..bytes.len() {
        let mut buf = bytes[..k].to_vec();
        assert!(dec.decode(&mut buf).unwrap().is_none());
        assert_eq!(buf.len(), k);
    }
    let mut buf = bytes.clone();
    assert!(dec.decode(&mut buf).unwrap().is_some());
}

#[test]
fn binary_bad_payload_length() {
    let mut buf = entry(28, 1, 2, 3, 4, None, None, b"\x04\0");
    assert_eq!(LogcatBinaryDecoder::new().decode(&mut buf).err(), Some(LogcatDecodeError::InvalidPayloadLength(2)));
    assert_eq!(buf.len(), 30);
}

#[test]
fn binary_bad_header_size() {
    let mut buf = entry(28, 1, 2, 3, 4, None, None, b"\x04a\0b\0");
    buf[2] = 30;
    assert_eq!(LogcatBinaryDecoder::new().decode(&mut buf).err(), Some(LogcatDecodeError::InvalidHeaderSize(30)));
    let mut buf = entry(28, 1, 2, 3, 4, None, None, b"\x04a\0b\0");
    buf[2] = 16;
    assert_eq!(LogcatBinaryDecoder::new().decode(&mut buf).err(), Some(LogcatDecodeError::InvalidHeaderSize(16)));
    buf[2] = 56;
    assert_eq!(LogcatBinaryDecoder::new().decode(&mut buf).err(), Some(LogcatDecodeError::InvalidHeaderSize(56)));
}

#[test]
fn binary_short_event_payload_is_consumed() {
    let mut buf = entry(24, 1, 2, 3, 4, Some(6), None, &[1, 2, 3]);
    buf.push(7);
    assert_eq!(LogcatBinaryDecoder::new().decode(&mut buf).err(), Some(LogcatDecodeError::EventPayloadTooShort));
    assert_eq!(buf, vec![7]);
}

#[test]
fn binary_missing_tag_terminator() {
    let mut buf = entry(24, 1, 2, 3, 4, Some(0), None, b"\x04abc");
    assert_eq!(LogcatBinaryDecoder::new().decode(&mut buf).err(), Some(LogcatDecodeError::MissingTagTerminator));
    assert!(buf.is_empty());
}

#[test]
fn binary_invalid_nanoseconds() {
    let mut buf = entry(24, 1, 2, 3, 2_000_000_000, Some(0), None, b"\x04a\0b\0");
    assert_eq!(LogcatBinaryDecoder::new().decode(&mut buf).err(), Some(LogcatDecodeError::InvalidTimestamp));
    let mut buf = entry(24, 1, 2, 59, 1_500_000_000, Some(0), None, b"\x04a\0b\0");
    let m = LogcatBinaryDecoder::new().decode(&mut buf).unwrap().unwrap();
    assert_eq!(m.timestamp.unix_seconds, 59);
    assert_eq!(m.timestamp.nanos, 1_500_000_000);
}

#[test]
fn binary_tag_nul_last_gives_empty_message() {
    let mut buf = entry(24, 1, 2, 3, 4, Some(0), None, b"\x04ab\0");
    let m = LogcatBinaryDecoder::new().decode(&mut buf).unwrap().unwrap();
    match m.buffer {
        LogBuffer::TextLog(t) => {
            assert_eq!(t.tag, "ab");
            assert_eq!(t.message, "");
        }
        other => panic!("unexpected {:?}", other),
    }
}

#[test]
fn binary_largest_payload_and_header() {
    let mut payload = vec![4u8, b't', 0];
    payload.resize(16384, b'x');
    let mut buf = entry(52, 1, 2, 3, 4, Some(1), Some(2), &payload);
    assert_eq!(buf.len(), 52 + 16384);
    let m = LogcatBinaryDecoder::new().decode(&mut buf).unwrap().unwrap();
    assert!(buf.is_empty());
    assert_eq!(m.lid, Some(1));
    assert_eq!(m.uid, Some(2));
    match m.buffer {
        LogBuffer::TextLog(t) => {
            assert_eq!(t.level, LogLevel::Info);
            assert_eq!(t.message.len(), 16384 - 3);
        }
        other => panic!("unexpected {:?}", other),
    }
    payload.push(b'x');
    let mut buf = entry(52, 1, 2, 3, 4, Some(1), Some(2), &payload);
    assert_eq!(LogcatBinaryDecoder::new().decode(&mut buf).err(), Some(LogcatDecodeError::InvalidPayloadLength(16385)));
}

#[test]
fn binary_two_entries_in_one_buffer() {
    let mut buf = entry(24, 1, 2, 3, 4, Some(0), None, b"\x05a\0one\0");
    buf.extend(entry(24, 5, 6, 7, 8, Some(2), None, &[1, 0, 0, 0]));
    let mut dec = LogcatBinaryDecoder::new();
    let first = dec.decode(&mut buf).unwrap().unwrap();
    let second = dec.decode(&mut buf).unwrap().unwrap();
    assert!(buf.is_empty());
    assert_eq!(first.pid, 1);
    assert_eq!(second.pid, 5);
    assert!(matches!(second.buffer, LogBuffer::BinaryLog(b) if b.tag == 1));
    assert!(dec.decode(&mut buf).unwrap().is_none());
}

#[test]
fn binary_negative_pid_and_event_tag() {
    let mut buf = entry(20, -1, 5, 60, 0, None, None, b"\x04T\0m\0");
    let m = LogcatBinaryDecoder::new().decode(&mut buf).unwrap().unwrap();
    assert_eq!(m.pid, -1);
    assert_eq!(m.tid, 5);
    assert_eq!(m.timestamp.unix_seconds, 60);
    assert_eq!(m.timestamp.nanos, 0);
    match m.buffer {
        LogBuffer::TextLog(t) => {
            assert_eq!(t.level, LogLevel::Info);
            assert_eq!(t.tag, "T");
            assert_eq!(t.message, "m");
        }
        other => panic!("unexpected {:?}", other),
    }
    let mut buf = entry(24, 7, 8, 0, 0, Some(5), None, &[0xfe, 0xff, 0xff, 0xff]);
    let m = LogcatBinaryDecoder::new().decode(&mut buf).unwrap().unwrap();
    assert!(matches!(m.buffer, LogBuffer::BinaryLog(b) if b.tag == -2));
}
