//! Log entries and the decoder of the binary log stream.
use vstd::prelude::*;
use vstd::slice::slice_subrange;

use crate::strings::{lossy_utf8, utf8_lossy};
use crate::timestamp::{naive_from_unix, unix_instant_valid, NaiveTimestamp};

verus! {

/// Severity of a log entry.
#[derive(Clone, Copy, Debug, PartialEq, Eq, Structural)]
pub enum LogLevel {
    Other(u8),
    Verbose,
    Debug,
    Info,
    Warning,
    Error,
    Fatal,
}

/// A text payload of the binary stream.
#[derive(Debug)]
pub struct TextLogBuffer {
    pub level: LogLevel,
    pub tag: String,
    pub message: String,
}

/// A binary payload: the event tag that starts it.
#[derive(Clone, Copy, Debug, PartialEq, Eq, Structural)]
pub struct BinaryLogBuffer {
    pub tag: i32,
}

#[derive(Debug)]
pub enum LogBuffer {
    TextLog(TextLogBuffer),
    BinaryLog(BinaryLogBuffer),
}

/// One entry of the binary stream.
#[derive(Debug)]
pub struct LogMessage {
    pub timestamp: NaiveTimestamp,
    pub pid: i32,
    pub tid: u32,
    pub lid: Option<u32>,
    pub uid: Option<u32>,
    pub buffer: LogBuffer,
}

/// Why an entry of the binary stream could not be decoded.
#[derive(Clone, Copy, Debug, PartialEq, Eq, Structural)]
pub enum LogcatDecodeError {
    /// The payload length lies outside `3..=16384`.
    InvalidPayloadLength(u16),
    /// The header size is under 20, over 52 or not a multiple of 4.
    InvalidHeaderSize(u16),
    /// A binary payload shorter than its 4-byte event tag.
    EventPayloadTooShort,
    /// A text payload whose tag has no terminating NUL.
    MissingTagTerminator,
    /// A nanosecond field that names no instant.
    InvalidTimestamp,
}

pub const LOG_ID_EVENTS: u32 = 2;
pub const LOG_ID_STATS: u32 = 5;
pub const LOG_ID_SECURITY: u32 = 6;

pub const LOG_LEVEL_VERBOSE: u8 = 2;
pub const LOG_LEVEL_DEBUG: u8 = 3;
pub const LOG_LEVEL_INFO: u8 = 4;
pub const LOG_LEVEL_WARN: u8 = 5;
pub const LOG_LEVEL_ERROR: u8 = 6;
pub const LOG_LEVEL_FATAL: u8 = 7;

/// Smallest header: length, header size, pid, tid, seconds, nanoseconds.
pub const LOGGER_ENTRY_MIN_HEADER: u16 = 20;
/// Largest header accepted, leaving room for fields newer than the uid.
pub const LOGGER_ENTRY_MAX_HEADER: u16 = 52;
/// Largest payload accepted.
pub const LOGGER_ENTRY_MAX_PAYLOAD: u16 = 16384;

/// Level that a text payload's first byte codes.
pub open spec fn level_of_code(x: u8) -> LogLevel {
    if x == LOG_LEVEL_VERBOSE {
        LogLevel::Verbose
    } else if x == LOG_LEVEL_DEBUG {
        LogLevel::Debug
    } else if x == LOG_LEVEL_INFO {
        LogLevel::Info
    } else if x == LOG_LEVEL_WARN {
        LogLevel::Warning
    } else if x == LOG_LEVEL_ERROR {
        LogLevel::Error
    } else if x == LOG_LEVEL_FATAL {
        LogLevel::Fatal
    } else {
        LogLevel::Other(x)
    }
}

pub fn level_from_code(x: u8) -> (r: LogLevel)
    ensures
        r == level_of_code(x),
{
    if x == LOG_LEVEL_VERBOSE {
        LogLevel::Verbose
    } else if x == LOG_LEVEL_DEBUG {
        LogLevel::Debug
    } else if x == LOG_LEVEL_INFO {
        LogLevel::Info
    } else if x == LOG_LEVEL_WARN {
        LogLevel::Warning
    } else if x == LOG_LEVEL_ERROR {
        LogLevel::Error
    } else if x == LOG_LEVEL_FATAL {
        LogLevel::Fatal
    } else {
        LogLevel::Other(x)
    }
}

/// Little-endian `u16` at `i`.
pub open spec fn le_u16(b: Seq<u8>, i: int) -> u16 {
    (b[i] as int + 256 * b[i + 1] as int) as u16
}

/// Little-endian `u32` at `i`.
pub open spec fn le_u32(b: Seq<u8>, i: int) -> u32 {
    (b[i] as int + 256 * b[i + 1] as int + 65536 * b[i + 2] as int + 16777216 * b[
        i + 3
    ] as int) as u32
}

/// The `i32` whose two's complement bits are `v`.
pub open spec fn bits_to_i32(v: u32) -> i32 {
    if v >= 0x8000_0000 {
        (v - 0x1_0000_0000) as i32
    } else {
        v as i32
    }
}

/// Little-endian `i32` at `i`, in two's complement.
pub open spec fn le_i32(b: Seq<u8>, i: int) -> i32 {
    bits_to_i32(le_u32(b, i))
}

/// Payload length field of an entry.
pub open spec fn payload_len(b: Seq<u8>) -> int {
    le_u16(b, 0) as int
}

/// Header size field of an entry.
pub open spec fn header_size(b: Seq<u8>) -> int {
    le_u16(b, 2) as int
}

pub open spec fn payload_len_valid(b: Seq<u8>) -> bool {
    3 <= payload_len(b) <= LOGGER_ENTRY_MAX_PAYLOAD
}

pub open spec fn header_size_valid(b: Seq<u8>) -> bool {
    LOGGER_ENTRY_MIN_HEADER <= header_size(b) <= LOGGER_ENTRY_MAX_HEADER && header_size(b) % 4
        == 0
}

/// The `u32` field at `off` of a header of `hdr_size` bytes, where the
/// header is long enough to hold it.
pub open spec fn header_field(b: Seq<u8>, hdr_size: int, off: int) -> Option<u32> {
    if off + 4 <= hdr_size {
        Some(le_u32(b, off))
    } else {
        None
    }
}

/// Whether entries of the log with this id carry binary payloads.
pub open spec fn is_binary_log(lid: Option<u32>) -> bool {
    match lid {
        Some(l) => l == LOG_ID_EVENTS || l == LOG_ID_STATS || l == LOG_ID_SECURITY,
        None => false,
    }
}

/// Index of the first NUL of `p` at or after `from`.
pub open spec fn first_nul(p: Seq<u8>, from: int) -> Option<int>
    decreases p.len() - from,
{
    if from < 0 || from >= p.len() {
        None
    } else if p[from] == 0 {
        Some(from)
    } else {
        first_nul(p, from + 1)
    }
}

/// `b` with the bytes at or above 0x80 cut from its end.
pub open spec fn trim_high_end(b: Seq<u8>) -> Seq<u8>
    decreases b.len(),
{
    if b.len() > 0 && b[b.len() - 1] >= 0x80 {
        trim_high_end(b.drop_last())
    } else {
        b
    }
}

/// A decoded payload, over mathematical values.
pub enum PayloadView {
    Text { level: LogLevel, tag: Seq<char>, message: Seq<char> },
    Binary { event_tag: i32 },
}

/// End of the message of a text payload whose tag ends at `tag_end`: the
/// next NUL, or the end of the payload where none follows.
pub open spec fn message_end(p: Seq<u8>, tag_end: int) -> int {
    match first_nul(p, tag_end + 1) {
        Some(e) => e,
        None => if p.len() > tag_end + 1 {
            p.len() as int
        } else {
            tag_end + 1
        },
    }
}

/// What the payload `p` decodes to.
pub open spec fn payload_view(p: Seq<u8>, binary: bool) -> Result<PayloadView, LogcatDecodeError> {
    if binary {
        if p.len() < 4 {
            Err(LogcatDecodeError::EventPayloadTooShort)
        } else {
            Ok(PayloadView::Binary { event_tag: le_i32(p, 0) })
        }
    } else {
        match first_nul(p, 1) {
            None => Err(LogcatDecodeError::MissingTagTerminator),
            Some(t) => Ok(
                PayloadView::Text {
                    level: level_of_code(p[0]),
                    tag: lossy_utf8(p.subrange(1, t)),
                    message: lossy_utf8(
                        trim_high_end(p.subrange(t + 1, message_end(p, t))),
                    ),
                },
            ),
        }
    }
}

/// A decoded entry, over mathematical values.
pub struct EntryView {
    pub pid: i32,
    pub tid: u32,
    pub sec: u32,
    pub nsec: u32,
    pub lid: Option<u32>,
    pub uid: Option<u32>,
    pub payload: PayloadView,
}

/// What one call of the binary decoder does on a buffer.
pub enum BinaryStep {
    /// Nothing yet: the buffer holds no whole entry.
    NeedMore,
    /// The header cannot be trusted: nothing is consumed.
    BadHeader(LogcatDecodeError),
    /// A whole entry of `len` bytes, decoded or refused.
    Entry { len: int, result: Result<EntryView, LogcatDecodeError> },
}

/// What the whole entry `e` (header and payload) decodes to.
pub open spec fn entry_view(e: Seq<u8>) -> Result<EntryView, LogcatDecodeError> {
    let h = header_size(e);
    let lid = header_field(e, h, 20);
    let sec = le_u32(e, 12);
    let nsec = le_u32(e, 16);
    match payload_view(e.subrange(h, h + payload_len(e)), is_binary_log(lid)) {
        Err(err) => Err(err),
        Ok(payload) => if !unix_instant_valid(sec, nsec) {
            Err(LogcatDecodeError::InvalidTimestamp)
        } else {
            Ok(
                EntryView {
                    pid: le_i32(e, 4),
                    tid: le_u32(e, 8),
                    sec,
                    nsec,
                    lid,
                    uid: header_field(e, h, 24),
                    payload,
                },
            )
        },
    }
}

/// The step that the binary decoder takes on the buffered bytes `b`.
pub open spec fn binary_step(b: Seq<u8>) -> BinaryStep {
    if b.len() < 4 {
        BinaryStep::NeedMore
    } else if !payload_len_valid(b) {
        BinaryStep::BadHeader(LogcatDecodeError::InvalidPayloadLength(le_u16(b, 0)))
    } else if !header_size_valid(b) {
        BinaryStep::BadHeader(LogcatDecodeError::InvalidHeaderSize(le_u16(b, 2)))
    } else if b.len() < header_size(b) + payload_len(b) {
        BinaryStep::NeedMore
    } else {
        let n = header_size(b) + payload_len(b);
        BinaryStep::Entry { len: n, result: entry_view(b.subrange(0, n)) }
    }
}

/// A whole entry cut short anywhere asks for more bytes: on every proper
/// prefix of it the decoder neither fails nor consumes anything.
pub proof fn lemma_binary_truncation_needs_more(entry: Seq<u8>, k: int)
    requires
        binary_step(entry) matches BinaryStep::Entry { len, .. } && len == entry.len(),
        0 <= k < entry.len(),
    ensures
        binary_step(entry.subrange(0, k)) == BinaryStep::NeedMore,
{
    let p = entry.subrange(0, k);
    if k >= 4 {
        assert(le_u16(p, 0) == le_u16(entry, 0));
        assert(le_u16(p, 2) == le_u16(entry, 2));
    }
}

/// An entry's declared length is authoritative: whatever bytes follow a
/// whole entry, the decoder takes the same step on it, reading and
/// consuming nothing beyond it.
pub proof fn lemma_binary_entry_ignores_rest(entry: Seq<u8>, rest: Seq<u8>)
    requires
        binary_step(entry) matches BinaryStep::Entry { len, .. } && len == entry.len(),
    ensures
        binary_step(entry + rest) == binary_step(entry),
{
    let b = entry + rest;
    assert(le_u16(b, 0) == le_u16(entry, 0));
    assert(le_u16(b, 2) == le_u16(entry, 2));
    assert(b.subrange(0, entry.len() as int) =~= entry);
    assert(entry.subrange(0, entry.len() as int) =~= entry);
}

impl TextLogBuffer {
    pub open spec fn view_is(&self, v: PayloadView) -> bool {
        v == PayloadView::Text { level: self.level, tag: self.tag@, message: self.message@ }
    }
}

impl LogBuffer {
    /// Whether this buffer is the decoded form of `v`.
    pub open spec fn view_is(&self, v: PayloadView) -> bool {
        match self {
            LogBuffer::TextLog(t) => t.view_is(v),
            LogBuffer::BinaryLog(bin) => v == PayloadView::Binary { event_tag: bin.tag },
        }
    }
}

impl LogMessage {
    /// Whether this entry is the decoded form of `v`.
    pub open spec fn view_is(&self, v: EntryView) -> bool {
        &&& self.pid == v.pid
        &&& self.tid == v.tid
        &&& self.lid == v.lid
        &&& self.uid == v.uid
        &&& self.timestamp.unix_seconds == v.sec as i64
        &&& self.timestamp.nanos == v.nsec
        &&& self.buffer.view_is(v.payload)
    }
}

/// Whether the decoder's result `r` and the buffer left after the call, `after`,
/// are those of `step` on `before`.
pub open spec fn binary_outcome(
    step: BinaryStep,
    before: Seq<u8>,
    after: Seq<u8>,
    r: Result<Option<LogMessage>, LogcatDecodeError>,
) -> bool {
    match step {
        BinaryStep::NeedMore => r is Ok && r->Ok_0 is None && after == before,
        BinaryStep::BadHeader(e) => r == Err::<Option<LogMessage>, _>(e) && after == before,
        BinaryStep::Entry { len, result } => after == before.subrange(len, before.len() as int)
            && match result {
            Ok(v) => r is Ok && r->Ok_0 is Some && r->Ok_0->0.view_is(v),
            Err(e) => r is Err && r->Err_0 == e,
        },
    }
}

fn read_u16(b: &Vec<u8>, i: usize) -> (r: u16)
    requires
        i + 2 <= b.len(),
    ensures
        r == le_u16(b@, i as int),
{
    let lo = b[i] as u16;
    let hi = b[i + 1] as u16;
    assert(lo < 256 && hi < 256);
    lo + 256 * hi
}

/// The little-endian `u32` at `i`.
fn u32_at(b: &[u8], i: usize) -> (r: u32)
    requires
        i + 4 <= b.len(),
    ensures
        r == le_u32(b@, i as int),
{
    let b0 = b[i] as u32;
    let b1 = b[i + 1] as u32;
    let b2 = b[i + 2] as u32;
    let b3 = b[i + 3] as u32;
    assert(b0 < 256 && b1 < 256 && b2 < 256 && b3 < 256);
    b0 + 256 * b1 + 65536 * b2 + 16777216 * b3
}

/// The `u32` at `off` where a header of `hdr_size` bytes holds it.
fn read_u32(b: &Vec<u8>, hdr_size: usize, off: usize) -> (r: Option<u32>)
    requires
        hdr_size <= b@.len(),
    ensures
        r == header_field(b@, hdr_size as int, off as int),
{
    if off > hdr_size || hdr_size - off < 4 {
        None
    } else {
        Some(u32_at(b.as_slice(), off))
    }
}

/// The `i32` whose two's complement bits are `v`.
fn i32_from_bits(v: u32) -> (r: i32)
    ensures
        r == bits_to_i32(v),
{
    if v >= 0x8000_0000 {
        ((v - 0x8000_0000) as i32) - 0x7fff_ffff - 1
    } else {
        v as i32
    }
}

/// Index of the first NUL of `p` at or after `from`.
fn find_nul(p: &[u8], from: usize) -> (r: Option<usize>)
    ensures
        r matches Some(j) ==> first_nul(p@, from as int) == Some(j as int) && j < p@.len(),
        r is None ==> first_nul(p@, from as int) is None,
{
    let mut i = from;
    while i < p.len()
        invariant
            from <= i,
            first_nul(p@, from as int) == first_nul(p@, i as int),
        decreases p@.len() - i,
    {
        if p[i] == 0 {
            return Some(i);
        }
        i = i + 1;
    }
    None
}

/// `b` without the bytes at or above 0x80 at its end.
fn trim_high(b: &[u8]) -> (r: &[u8])
    ensures
        r@ == trim_high_end(b@),
{
    let mut n = b.len();
    assert(b@.subrange(0, n as int) =~= b@);
    while n > 0 && b[n - 1] >= 0x80
        invariant
            n <= b@.len(),
            trim_high_end(b@) == trim_high_end(b@.subrange(0, n as int)),
        decreases n,
    {
        assert(b@.subrange(0, n as int).drop_last() =~= b@.subrange(0, n - 1));
        n = n - 1;
    }
    slice_subrange(b, 0, n)
}

/// Decodes the payload `p` of an entry.
fn decode_payload(p: &[u8], binary: bool) -> (r: Result<LogBuffer, LogcatDecodeError>)
    ensures
        match payload_view(p@, binary) {
            Ok(v) => r is Ok && r->Ok_0.view_is(v),
            Err(e) => r == Err::<LogBuffer, _>(e),
        },
{
    if binary {
        if p.len() < 4 {
            return Err(LogcatDecodeError::EventPayloadTooShort);
        }
        let tag = i32_from_bits(u32_at(p, 0));
        return Ok(LogBuffer::BinaryLog(BinaryLogBuffer { tag }));
    }
    if p.len() == 0 {
        return Err(LogcatDecodeError::MissingTagTerminator);
    }
    let level = level_from_code(p[0]);
    let tag_end = match find_nul(p, 1) {
        Some(t) => t,
        None => {
            return Err(LogcatDecodeError::MissingTagTerminator);
        },
    };
    let msg_start = tag_end + 1;
    let msg_end = match find_nul(p, msg_start) {
        Some(e) => e,
        None => if p.len() > msg_start {
            p.len()
        } else {
            msg_start
        },
    };
    proof {
        lemma_first_nul_bounds(p@, 1);
        lemma_first_nul_bounds(p@, msg_start as int);
    }
    let tag = utf8_lossy(slice_subrange(p, 1, tag_end));
    let message = utf8_lossy(trim_high(slice_subrange(p, msg_start, msg_end)));
    Ok(LogBuffer::TextLog(TextLogBuffer { level, tag, message }))
}

proof fn lemma_first_nul_bounds(p: Seq<u8>, from: int)
    ensures
        first_nul(p, from) matches Some(i) ==> from <= i < p.len() && p[i] == 0,
    decreases p.len() - from,
{
    if 0 <= from < p.len() && p[from] != 0 {
        lemma_first_nul_bounds(p, from + 1);
    }
}

/// Decoder of the binary log stream: each entry is a little-endian header
/// (payload length, header size, pid, tid, seconds, nanoseconds, and in
/// newer versions a log id and a uid) followed by its payload.
pub struct LogcatBinaryDecoder;

impl LogcatBinaryDecoder {
    pub fn new() -> (r: Self) {
        LogcatBinaryDecoder
    }

    /// Decodes the entry at the start of `src` and removes it from `src`.
    ///
    /// Returns `Ok(None)` and leaves `src` as it was while no whole entry is
    /// buffered. A header with an invalid payload length or header size gives
    /// its error and consumes nothing. A whole entry is always consumed, and
    /// gives the decoded entry or the reason it could not be decoded.
    pub fn decode(&mut self, src: &mut Vec<u8>) -> (r: Result<Option<LogMessage>, LogcatDecodeError>)
        ensures
            binary_outcome(binary_step(old(src)@), old(src)@, final(src)@, r),
    {
        if src.len() < 4 {
            src.reserve(1024);
            return Ok(None);
        }
        let len = read_u16(src, 0);
        if len < 3 || len > LOGGER_ENTRY_MAX_PAYLOAD {
            return Err(LogcatDecodeError::InvalidPayloadLength(len));
        }
        let hdr = read_u16(src, 2);
        if hdr < LOGGER_ENTRY_MIN_HEADER || hdr > LOGGER_ENTRY_MAX_HEADER || hdr % 4 != 0 {
            return Err(LogcatDecodeError::InvalidHeaderSize(hdr));
        }
        let hdr_size = hdr as usize;
        let entry_len = hdr_size + len as usize;
        if src.len() < entry_len {
            src.reserve(entry_len - src.len());
            return Ok(None);
        }
        let ghost b = src@;
        let ghost e = b.subrange(0, entry_len as int);
        let pid = i32_from_bits(u32_at(src.as_slice(), 4));
        let tid = u32_at(src.as_slice(), 8);
        let sec = u32_at(src.as_slice(), 12);
        let nsec = u32_at(src.as_slice(), 16);
        let lid = read_u32(src, hdr_size, 20);
        let uid = read_u32(src, hdr_size, 24);
        let binary = match lid {
            Some(l) => l == LOG_ID_EVENTS || l == LOG_ID_STATS || l == LOG_ID_SECURITY,
            None => false,
        };
        let payload = slice_subrange(src.as_slice(), hdr_size, entry_len);
        assert(payload@ =~= e.subrange(hdr_size as int, entry_len as int));
        assert(le_u16(e, 0) == len && le_u16(e, 2) == hdr);
        assert(header_field(e, hdr_size as int, 20) == lid && header_field(e, hdr_size as int, 24) == uid);
        assert(le_u32(e, 12) == sec && le_u32(e, 16) == nsec);
        assert(le_u32(e, 4) == le_u32(b, 4) && le_u32(e, 8) == tid);
        let decoded = decode_payload(payload, binary);
        let rest = src.split_off(entry_len);
        *src = rest;
        let buffer = match decoded {
            Ok(buffer) => buffer,
            Err(err) => {
                return Err(err);
            },
        };
        let timestamp = match naive_from_unix(sec, nsec) {
            Some(t) => t,
            None => {
                return Err(LogcatDecodeError::InvalidTimestamp);
            },
        };
        Ok(Some(LogMessage { timestamp, pid, tid, lid, uid, buffer }))
    }
}

} // verus!
