use xadb::logcat::LogLevel;
use xadb::logcat_text::{LogItem, LogcatStringDecoder};

const ENTRY_UID: &[u8] = b"[ 2022-11-04 00:50:26.234185959 +0000  1000: 1234: 5678 I/ActivityManager  ]\nStart proc\n\nwith blank line\n\n[ 2022-11-04 00:50:26.234185959 +0000";
const ENTRY_PID: &[u8] = b"[ 2022-11-04 00:50:26.234185959 +0100   321:  654 W/tag ]\nhello\n\n--------- beginning of main\n";

#[test]
fn text_recovery_then_beginning() {
    let mut dec = LogcatStringDecoder::new();
    let mut buf = b"garbage\nmore\n\n--------- beginning of main\n".to_vec();
    match dec.decode(&mut buf) {
        Some(LogItem::LogUnknown(b)) => assert_eq!(b, b"garbage\nmore".to_vec()),
        other => panic!("unexpected {:?}", other),
    }
    match dec.decode(&mut buf) {
        Some(LogItem::LogBeginning(name)) => assert_eq!(name, "main"),
        other => panic!("unexpected {:?}", other),
    }
    assert!(buf.is_empty());
    assert!(dec.decode(&mut buf).is_none());
}

#[test]
fn text_recovery_across_calls_keeps_bytes() {
    let mut dec = LogcatStringDecoder::new();
    let mut buf = b"xx".to_vec();
    assert!(dec.decode(&mut buf).is_none());
    assert!(buf.is_empty());
    buf.extend_from_slice(b"yy\n\n[ ");
    match dec.decode(&mut buf) {
        Some(LogItem::LogUnknown(b)) => assert_eq!(b, b"xxyy".to_vec()),
        other => panic!("unexpected {:?}", other),
    }
    assert_eq!(buf, b"[ ".to_vec());
}

#[test]
fn text_entry_with_uid() {
    let mut dec = LogcatStringDecoder::new();
    let mut buf = ENTRY_UID.to_vec();
    match dec.decode(&mut buf) {
        Some(LogItem::LogMessage(m)) => {
            assert_eq!(m.uid.as_deref(), Some("1000"));
            assert_eq!(m.pid, 1234);
            assert_eq!(m.tid, 5678);
            assert_eq!(m.level, LogLevel::Info);
            assert_eq!(m.tag, "ActivityManager");
            assert_eq!(m.message, b"Start proc\n\nwith blank line".to_vec());
            assert_eq!(m.timestamp.unix_seconds, 1_667_523_026);
            assert_eq!(m.timestamp.nanos, 234_185_959);
            assert_eq!(m.timestamp.utc_offset_seconds, 0);
        }
        other => panic!("unexpected {:?}", other),
    }
    assert_eq!(buf, b"[ 2022-11-04 00:50:26.234185959 +0000".to_vec());
}

#[test]
fn text_entry_without_uid() {
    let mut dec = LogcatStringDecoder::new();
    let mut buf = ENTRY_PID.to_vec();
    match dec.decode(&mut buf) {
        Some(LogItem::LogMessage(m)) => {
            assert_eq!(m.uid, None);
            assert_eq!(m.pid, 321);
            assert_eq!(m.tid, 654);
            assert_eq!(m.level, LogLevel::Warning);
            assert_eq!(m.tag, "tag");
            assert_eq!(m.message, b"hello".to_vec());
            assert_eq!(m.timestamp.utc_offset_seconds, 3600);
        }
        other => panic!("unexpected {:?}", other),
    }
    match dec.decode(&mut buf) {
        Some(LogItem::LogBeginning(name)) => assert_eq!(name, "main"),
        other => panic!("unexpected {:?}", other),
    }
}

#[test]
fn text_every_truncation_of_entry_waits() {
    let bytes = ENTRY_UID;
    let cut = bytes.windows(4).position(|w| w == b"\n\n[ ").unwrap() + 25;
    for k in 0..cut {
        let mut dec = LogcatStringDecoder::new();
        let mut buf = bytes[..k].to_vec();
        assert!(dec.decode(&mut buf).is_none(), "prefix {}", k);
        assert_eq!(buf.len(), k);
    }
    let mut dec = LogcatStringDecoder::new();
    let mut buf = bytes[..cut].to_vec();
    assert!(matches!(dec.decode(&mut buf), Some(LogItem::LogMessage(_))));
}

#[test]
fn text_bad_timestamp_recovers() {
    let mut dec = LogcatStringDecoder::new();
    let mut buf = b"[ 2022-13-04 00:50:26.234185959 +0000  1: 2 I/t ]\nm\n\n--------- beginning of system\n".to_vec();
    match dec.decode(&mut buf) {
        Some(LogItem::LogUnknown(b)) => assert_eq!(b, b"[ 2022-13-04 00:50:26.234185959 +0000  1: 2 I/t ]\nm".to_vec()),
        other => panic!("unexpected {:?}", other),
    }
    match dec.decode(&mut buf) {
        Some(LogItem::LogBeginning(name)) => assert_eq!(name, "system"),
        other => panic!("unexpected {:?}", other),
    }
}

#[test]
fn text_non_numeric_pid_recovers() {
    let mut dec = LogcatStringDecoder::new();
    let mut buf = b"[ 2022-11-04 00:50:26.234185959 +0000  ab: 2 I/t ]\nmmmmmmmmmmmm\n\n[ ".to_vec();
    assert!(matches!(dec.decode(&mut buf), Some(LogItem::LogUnknown(_))));
    assert_eq!(buf, b"[ ".to_vec());
}

#[test]
fn text_beginning_with_bad_name_recovers() {
    let mut dec = LogcatStringDecoder::new();
    let mut buf = b"--------- beginning of ma-in\n\n\n[ ".to_vec();
    match dec.decode(&mut buf) {
        Some(LogItem::LogUnknown(b)) => assert_eq!(b, b"--------- beginning of ma-in\n".to_vec()),
        other => panic!("unexpected {:?}", other),
    }
}

#[test]
fn text_short_beginning_waits() {
    let mut dec = LogcatStringDecoder::new();
    let mut buf = b"--------- begin".to_vec();
    assert!(dec.decode(&mut buf).is_none());
    assert_eq!(buf.len(), 15);
    let mut buf = b"--------- beginning of radio".to_vec();
    assert!(dec.decode(&mut buf).is_none());
    assert_eq!(buf.len(), 28);
}
