//! The decoder of the long, human-readable log format.
use vstd::prelude::*;
use vstd::slice::{slice_subrange, slice_to_vec};
use vstd::utf8::{decode_utf8, valid_utf8};

use crate::logcat::LogLevel;
use crate::strings::{lossy_utf8, trim, trimmed, utf8_lossy, utf8_str};
use crate::timestamp::{log_timestamp_of, parse_log_timestamp, LogTimestamp};

verus! {

/// One entry of the long format.
#[derive(Debug)]
pub struct LogLongMessage {
    pub timestamp: LogTimestamp,
    pub uid: Option<String>,
    pub pid: u32,
    pub tid: u32,
    pub level: LogLevel,
    pub tag: String,
    pub message: Vec<u8>,
}

/// What the decoder of the long format yields.
#[derive(Debug)]
pub enum LogItem {
    /// The start of a ring buffer, by name.
    LogBeginning(String),
    /// A whole entry.
    LogMessage(LogLongMessage),
    /// Bytes skipped while looking for the next entry.
    LogUnknown(Vec<u8>),
}

/// The line that opens a ring buffer: `--------- beginning of `.
pub open spec fn beginning_marker() -> Seq<u8> {
    seq![45u8, 45, 45, 45, 45, 45, 45, 45, 45, 32, 98, 101, 103, 105, 110, 110, 105, 110, 103, 32, 111, 102, 32]
}

/// What opens an entry: `[ `.
pub open spec fn header_marker() -> Seq<u8> {
    seq![91u8, 32]
}

/// What closes an entry's header: ` ]\n`.
pub open spec fn header_end_marker() -> Seq<u8> {
    seq![32u8, 93, 10]
}

fn beginning_marker_bytes() -> (r: Vec<u8>)
    ensures
        r@ == beginning_marker(),
{
    vec![45u8, 45, 45, 45, 45, 45, 45, 45, 45, 32, 98, 101, 103, 105, 110, 110, 105, 110, 103, 32, 111, 102, 32]
}

fn header_marker_bytes() -> (r: Vec<u8>)
    ensures
        r@ == header_marker(),
{
    vec![91u8, 32]
}

fn header_end_marker_bytes() -> (r: Vec<u8>)
    ensures
        r@ == header_end_marker(),
{
    vec![32u8, 93, 10]
}

/// Length of the timestamp, `2022-11-04 00:50:26.234185959 +0000`.
pub const TIMESTAMP_LEN: usize = 35;
/// Shortest buffer in which an entry is looked for.
pub const MINIMAL_LOG_LEN: usize = 64;
/// Bytes needed after a message to tell where it ends: a blank line and the
/// longer of the two markers that may follow it.
pub const MESSAGE_LOOKAHEAD: usize = 25;

/// Whether `w` stands in `b` at `i`.
pub open spec fn bytes_at(b: Seq<u8>, i: int, w: Seq<u8>) -> bool {
    0 <= i && i + w.len() <= b.len() && b.subrange(i, i + w.len()) == w
}

fn has_bytes_at(b: &Vec<u8>, i: usize, w: &Vec<u8>) -> (r: bool)
    ensures
        r == bytes_at(b@, i as int, w@),
{
    if i > b.len() || b.len() - i < w.len() {
        return false;
    }
    let mut j: usize = 0;
    while j < w.len()
        invariant
            i + w@.len() <= b@.len(),
            b@.len() <= usize::MAX,
            j <= w@.len(),
            forall|q: int| 0 <= q < j ==> b@[i + q] == w@[q],
        decreases w@.len() - j,
    {
        if b[i + j] != w[j] {
            assert(b@.subrange(i as int, i + w@.len())[j as int] != w@[j as int]);
            return false;
        }
        j = j + 1;
    }
    assert(b@.subrange(i as int, i + w@.len()) =~= w@);
    true
}

/// Byte classes of the header.
pub enum ByteClass {
    Space,
    Word,
    Digit,
}

pub open spec fn byte_in_class(x: u8, cls: ByteClass) -> bool {
    match cls {
        ByteClass::Space => x == 32,
        ByteClass::Word => (48 <= x <= 57) || (65 <= x <= 90) || (97 <= x <= 122) || x == 95,
        ByteClass::Digit => 48 <= x <= 57,
    }
}

/// End of the longest run of bytes of `cls` in `b` from `i`.
pub open spec fn byte_run_end(b: Seq<u8>, i: int, cls: ByteClass) -> int
    decreases b.len() - i,
{
    if 0 <= i < b.len() && byte_in_class(b[i], cls) {
        byte_run_end(b, i + 1, cls)
    } else {
        i
    }
}

proof fn lemma_byte_run_end(b: Seq<u8>, i: int, cls: ByteClass)
    requires
        0 <= i <= b.len(),
    ensures
        i <= byte_run_end(b, i, cls) <= b.len(),
        forall|j: int| i <= j < byte_run_end(b, i, cls) ==> byte_in_class(#[trigger] b[j], cls),
        byte_run_end(b, i, cls) < b.len() ==> !byte_in_class(b[byte_run_end(b, i, cls)], cls),
    decreases b.len() - i,
{
    if i < b.len() && byte_in_class(b[i], cls) {
        lemma_byte_run_end(b, i + 1, cls);
    }
}

fn is_in_byte_class(x: u8, cls: &ByteClass) -> (r: bool)
    ensures
        r == byte_in_class(x, *cls),
{
    match cls {
        ByteClass::Space => x == 32,
        ByteClass::Word => (48 <= x && x <= 57) || (65 <= x && x <= 90) || (97 <= x && x <= 122)
            || x == 95,
        ByteClass::Digit => 48 <= x && x <= 57,
    }
}

fn byte_run(b: &Vec<u8>, i: usize, cls: ByteClass) -> (r: usize)
    requires
        i <= b@.len(),
    ensures
        r == byte_run_end(b@, i as int, cls),
        i <= r <= b@.len(),
        forall|j: int| i <= j < r ==> byte_in_class(#[trigger] b@[j], cls),
        r < b@.len() ==> !byte_in_class(b@[r as int], cls),
{
    let mut j = i;
    while j < b.len() && is_in_byte_class(b[j], &cls)
        invariant
            i <= j <= b@.len(),
            byte_run_end(b@, i as int, cls) == byte_run_end(b@, j as int, cls),
        decreases b@.len() - j,
    {
        j = j + 1;
    }
    proof {
        lemma_byte_run_end(b@, i as int, cls);
    }
    j
}

/// Value of the decimal digits `d`.
pub open spec fn decimal_value(d: Seq<u8>) -> nat
    decreases d.len(),
{
    if d.len() == 0 {
        0
    } else {
        decimal_value(d.drop_last()) * 10 + (d.last() - 48) as nat
    }
}

/// Level that a letter of the long format names.
pub open spec fn level_of_letter(x: u8) -> LogLevel {
    if x == 86 {
        LogLevel::Verbose
    } else if x == 68 {
        LogLevel::Debug
    } else if x == 73 {
        LogLevel::Info
    } else if x == 87 {
        LogLevel::Warning
    } else if x == 69 {
        LogLevel::Error
    } else if x == 70 {
        LogLevel::Fatal
    } else {
        LogLevel::Other(x)
    }
}

fn level_from_letter(x: u8) -> (r: LogLevel)
    ensures
        r == level_of_letter(x),
{
    if x == 86 {
        LogLevel::Verbose
    } else if x == 68 {
        LogLevel::Debug
    } else if x == 73 {
        LogLevel::Info
    } else if x == 87 {
        LogLevel::Warning
    } else if x == 69 {
        LogLevel::Error
    } else if x == 70 {
        LogLevel::Fatal
    } else {
        LogLevel::Other(x)
    }
}

/// Where the ids of a header were found: the uid where there is one, the
/// pid and the tid, as ranges of bytes, and where the ids end.
pub enum IdsScan {
    NeedMore,
    Bad,
    Done { uid: Option<(int, int)>, pid: (int, int), tid: (int, int), end: int },
}

/// Reads `uid: pid: tid` or `pid: tid` from `i1`. The first token is
/// followed by a colon; if a number and a colon follow, the first token is
/// the uid, else it is the pid and must be a number. Spaces may follow each
/// colon.
pub open spec fn scan_ids(b: Seq<u8>, i1: int) -> IdsScan {
    let i2 = byte_run_end(b, i1, ByteClass::Word);
    let i3 = byte_run_end(b, i2 + 1, ByteClass::Space);
    let i4 = byte_run_end(b, i3, ByteClass::Digit);
    let i5 = byte_run_end(b, i4 + 1, ByteClass::Space);
    let i6 = byte_run_end(b, i5, ByteClass::Digit);
    if i1 >= b.len() {
        IdsScan::NeedMore
    } else if !byte_in_class(b[i1], ByteClass::Word) {
        IdsScan::Bad
    } else if i2 >= b.len() {
        IdsScan::NeedMore
    } else if b[i2] != 58 {
        IdsScan::Bad
    } else if i3 >= b.len() {
        IdsScan::NeedMore
    } else if !byte_in_class(b[i3], ByteClass::Digit) {
        IdsScan::Bad
    } else if i4 >= b.len() {
        IdsScan::NeedMore
    } else if b[i4] == 58 {
        if i5 >= b.len() {
            IdsScan::NeedMore
        } else if !byte_in_class(b[i5], ByteClass::Digit) {
            IdsScan::Bad
        } else if i6 >= b.len() {
            IdsScan::NeedMore
        } else {
            IdsScan::Done { uid: Some((i1, i2)), pid: (i3, i4), tid: (i5, i6), end: i6 }
        }
    } else if byte_run_end(b, i1, ByteClass::Digit) < i2 {
        IdsScan::Bad
    } else {
        IdsScan::Done { uid: None, pid: (i1, i2), tid: (i3, i4), end: i4 }
    }
}

/// First start at or after `i` of the end of a header, ` ]\n`.
pub open spec fn find_header_end(b: Seq<u8>, i: int) -> Option<int>
    decreases b.len() - i,
{
    if i < 0 || i + 3 > b.len() {
        None
    } else if bytes_at(b, i, header_end_marker()) {
        Some(i)
    } else {
        find_header_end(b, i + 1)
    }
}

/// The fields of a header, as mathematical values.
pub struct HeaderView {
    pub timestamp: (i64, u32, i32),
    pub uid: Option<Seq<char>>,
    pub pid: u32,
    pub tid: u32,
    pub level: LogLevel,
    pub tag_start: int,
    pub tag_end: int,
}

pub enum HeaderScan {
    NeedMore,
    Bad,
    Done(HeaderView),
}

/// Reads the header of an entry at the start of `b`:
/// `[ <timestamp> <ids> <level>/<tag> ]\n`.
pub open spec fn scan_header(b: Seq<u8>) -> HeaderScan {
    let ts = b.subrange(2, 2 + TIMESTAMP_LEN);
    if b.len() < MINIMAL_LOG_LEN {
        HeaderScan::NeedMore
    } else if !bytes_at(b, 0, header_marker()) || !valid_utf8(ts) || log_timestamp_of(
        decode_utf8(ts),
    ) is None || b[2 + TIMESTAMP_LEN] != 32 {
        HeaderScan::Bad
    } else {
        match scan_ids(b, byte_run_end(b, 2 + TIMESTAMP_LEN, ByteClass::Space)) {
            IdsScan::NeedMore => HeaderScan::NeedMore,
            IdsScan::Bad => HeaderScan::Bad,
            IdsScan::Done { uid, pid, tid, end } => {
                let pid_v = decimal_value(b.subrange(pid.0, pid.1));
                let tid_v = decimal_value(b.subrange(tid.0, tid.1));
                if pid_v > u32::MAX || tid_v > u32::MAX || b[end] != 32 {
                    HeaderScan::Bad
                } else if end + 2 >= b.len() {
                    HeaderScan::NeedMore
                } else if b[end + 2] != 47 {
                    HeaderScan::Bad
                } else {
                    match find_header_end(b, end + 3) {
                        None => HeaderScan::NeedMore,
                        Some(k) => HeaderScan::Done(
                            HeaderView {
                                timestamp: log_timestamp_of(decode_utf8(ts))->0,
                                uid: match uid {
                                    Some(u) => Some(lossy_utf8(b.subrange(u.0, u.1))),
                                    None => None,
                                },
                                pid: pid_v as u32,
                                tid: tid_v as u32,
                                level: level_of_letter(b[end + 1]),
                                tag_start: end + 3,
                                tag_end: k,
                            },
                        ),
                    }
                }
            },
        }
    }
}

/// Whether a message ends at `i`: a blank line, then the start of a ring
/// buffer or of an entry.
pub open spec fn message_break(b: Seq<u8>, i: int) -> bool {
    &&& b[i] == 10
    &&& b[i + 1] == 10
    &&& bytes_at(b, i + 2, beginning_marker()) || bytes_at(b, i + 2, header_marker())
}

/// First end of a message at or after `i`, looking only where the longer
/// marker would fit in `b`.
pub open spec fn find_message_end(b: Seq<u8>, i: int) -> Option<int>
    decreases b.len() - i,
{
    if i < 0 || i + MESSAGE_LOOKAHEAD > b.len() {
        None
    } else if message_break(b, i) {
        Some(i)
    } else {
        find_message_end(b, i + 1)
    }
}

/// Whether the stream can be picked up again at `i`: a blank line followed
/// by `-` or `[`.
pub open spec fn resync_at(b: Seq<u8>, i: int) -> bool {
    b[i] == 10 && b[i + 1] == 10 && (b[i + 2] == 45 || b[i + 2] == 91)
}

/// First place at or after `i` where the stream can be picked up again.
pub open spec fn find_resync(b: Seq<u8>, i: int) -> Option<int>
    decreases b.len() - i,
{
    if i < 0 || i + 3 > b.len() {
        None
    } else if resync_at(b, i) {
        Some(i)
    } else {
        find_resync(b, i + 1)
    }
}

/// `garbage` followed by the blank line and the first byte of a marker.
pub open spec fn before_marker(garbage: Seq<u8>) -> Seq<u8> {
    garbage + seq![10u8, 10u8, 45u8]
}

/// An item of the long format, as mathematical values.
pub enum ItemView {
    Beginning(Seq<char>),
    Message {
        timestamp: (i64, u32, i32),
        uid: Option<Seq<char>>,
        pid: u32,
        tid: u32,
        level: LogLevel,
        tag: Seq<char>,
        message: Seq<u8>,
    },
    Unknown(Seq<u8>),
}

/// One call of the decoder: the item it yields, whether it is then
/// recovering from an error and the bytes it holds back, and how many bytes
/// it consumed.
pub struct TextStep {
    pub item: Option<ItemView>,
    pub recovering: bool,
    pub pending: Seq<u8>,
    pub consumed: int,
}

/// No item yet, nothing consumed.
pub open spec fn wait_step() -> TextStep {
    TextStep { item: None, recovering: false, pending: seq![], consumed: 0 }
}

/// Error recovery, with `pending` held back already: up to the next blank
/// line before `-` or `[` all bytes are unknown; without one, all of `b` is
/// held back too.
pub open spec fn recover_step(pending: Seq<u8>, b: Seq<u8>) -> TextStep {
    match find_resync(b, 0) {
        Some(i) => TextStep {
            item: Some(ItemView::Unknown(pending + b.subrange(0, i))),
            recovering: false,
            pending: seq![],
            consumed: i + 2,
        },
        None => TextStep { item: None, recovering: true, pending: pending + b, consumed: b.len() as int },
    }
}

/// The start of a ring buffer: the marker, a name of word characters and a
/// newline.
pub open spec fn beginning_step(b: Seq<u8>) -> TextStep {
    let k = byte_run_end(b, beginning_marker().len() as int, ByteClass::Word);
    if b.len() < beginning_marker().len() {
        wait_step()
    } else if !bytes_at(b, 0, beginning_marker()) {
        recover_step(seq![], b)
    } else if k >= b.len() {
        wait_step()
    } else if b[k] == 10 {
        TextStep {
            item: Some(ItemView::Beginning(lossy_utf8(b.subrange(beginning_marker().len() as int, k)))),
            recovering: false,
            pending: seq![],
            consumed: k + 1,
        }
    } else {
        recover_step(seq![], b)
    }
}

/// An entry: its header, then a message up to the next blank line before
/// a marker; the tag is trimmed.
pub open spec fn entry_step(b: Seq<u8>) -> TextStep {
    match scan_header(b) {
        HeaderScan::NeedMore => wait_step(),
        HeaderScan::Bad => recover_step(seq![], b),
        HeaderScan::Done(h) => match find_message_end(b, h.tag_end + 3) {
            None => wait_step(),
            Some(e) => TextStep {
                item: Some(
                    ItemView::Message {
                        timestamp: h.timestamp,
                        uid: h.uid,
                        pid: h.pid,
                        tid: h.tid,
                        level: h.level,
                        tag: trimmed(lossy_utf8(b.subrange(h.tag_start, h.tag_end))),
                        message: b.subrange(h.tag_end + 3, e),
                    },
                ),
                recovering: false,
                pending: seq![],
                consumed: e + 2,
            },
        },
    }
}

/// The step of the decoder on buffered bytes `b`, recovering or not, with
/// `pending` held back.
pub open spec fn text_step(recovering: bool, pending: Seq<u8>, b: Seq<u8>) -> TextStep {
    if recovering {
        recover_step(pending, b)
    } else if b.len() == 0 {
        wait_step()
    } else if b[0] == 45 {
        beginning_step(b)
    } else if b[0] == 91 {
        entry_step(b)
    } else {
        recover_step(seq![], b)
    }
}

impl LogLongMessage {
    pub open spec fn view(&self) -> ItemView {
        ItemView::Message {
            timestamp: (self.timestamp.unix_seconds, self.timestamp.nanos, self.timestamp.utc_offset_seconds),
            uid: match self.uid {
                Some(u) => Some(u@),
                None => None,
            },
            pid: self.pid,
            tid: self.tid,
            level: self.level,
            tag: self.tag@,
            message: self.message@,
        }
    }
}

/// Whether `r` is the item `v`, or nothing where `v` is nothing.
pub open spec fn item_is(r: Option<LogItem>, v: Option<ItemView>) -> bool {
    match v {
        None => r is None,
        Some(ItemView::Beginning(n)) => r matches Some(LogItem::LogBeginning(s)) && s@ == n,
        Some(ItemView::Unknown(u)) => r matches Some(LogItem::LogUnknown(x)) && x@ == u,
        Some(m) => r matches Some(LogItem::LogMessage(l)) && l.view() == m,
    }
}

proof fn lemma_decimal_value_prefix(d: Seq<u8>, j: int)
    requires
        0 <= j <= d.len(),
    ensures
        decimal_value(d.subrange(0, j)) <= decimal_value(d),
    decreases d.len(),
{
    if j < d.len() {
        assert(d.drop_last() =~= d.subrange(0, d.len() - 1));
        lemma_decimal_value_prefix(d.drop_last(), j);
        assert(d.drop_last().subrange(0, j) =~= d.subrange(0, j));
    } else {
        assert(d.subrange(0, j) =~= d);
    }
}

/// Value of the digits `b[from..to]`, where it fits in a `u32`.
fn decimal_u32(b: &Vec<u8>, from: usize, to: usize) -> (r: Option<u32>)
    requires
        from <= to <= b@.len(),
        forall|i: int| from <= i < to ==> byte_in_class(#[trigger] b@[i], ByteClass::Digit),
    ensures
        decimal_value(b@.subrange(from as int, to as int)) <= u32::MAX ==> r == Some(
            decimal_value(b@.subrange(from as int, to as int)) as u32,
        ),
        decimal_value(b@.subrange(from as int, to as int)) > u32::MAX ==> r is None,
{
    let ghost d = b@.subrange(from as int, to as int);
    let mut v: u32 = 0;
    let mut i = from;
    while i < to
        invariant
            from <= i <= to <= b@.len(),
            d == b@.subrange(from as int, to as int),
            forall|q: int| from <= q < to ==> byte_in_class(#[trigger] b@[q], ByteClass::Digit),
            v == decimal_value(d.subrange(0, i - from as int)),
        decreases to - i,
    {
        assert(byte_in_class(b@[i as int], ByteClass::Digit));
        let x = (b[i] - 48) as u32;
        let ghost p = d.subrange(0, i + 1 - from as int);
        assert(p.drop_last() =~= d.subrange(0, i - from as int));
        match v.checked_mul(10) {
            Some(m) => match m.checked_add(x) {
                Some(n) => {
                    v = n;
                },
                None => {
                    proof {
                        lemma_decimal_value_prefix(d, i + 1 - from as int);
                    }
                    return None;
                },
            },
            None => {
                proof {
                    lemma_decimal_value_prefix(d, i + 1 - from as int);
                }
                return None;
            },
        }
        i = i + 1;
    }
    assert(d.subrange(0, to - from as int) =~= d);
    Some(v)
}

/// Where the ids of a header were found, in executable form.
enum IdsFound {
    NeedMore,
    Bad,
    Done { uid: Option<(usize, usize)>, pid: (usize, usize), tid: (usize, usize), end: usize },
}

spec fn ids_found_is(r: IdsFound, s: IdsScan) -> bool {
    match (r, s) {
        (IdsFound::NeedMore, IdsScan::NeedMore) => true,
        (IdsFound::Bad, IdsScan::Bad) => true,
        (IdsFound::Done { uid, pid, tid, end }, IdsScan::Done { uid: u2, pid: pid2, tid: tid2, end: end2 }) => {
            &&& match (uid, u2) {
                (Some(a), Some(c)) => a.0 == c.0 && a.1 == c.1,
                (None, None) => true,
                _ => false,
            }
            &&& pid.0 == pid2.0 && pid.1 == pid2.1 && tid.0 == tid2.0 && tid.1 == tid2.1 && end == end2
        },
        _ => false,
    }
}

fn find_ids(b: &Vec<u8>, i1: usize) -> (r: IdsFound)
    requires
        i1 <= b@.len(),
    ensures
        ids_found_is(r, scan_ids(b@, i1 as int)),
        r matches IdsFound::Done { uid, pid, tid, end } ==> {
            &&& end < b@.len()
            &&& pid.0 <= pid.1 <= b@.len() && tid.0 <= tid.1 <= b@.len()
            &&& forall|i: int| pid.0 <= i < pid.1 ==> byte_in_class(#[trigger] b@[i], ByteClass::Digit)
            &&& forall|i: int| tid.0 <= i < tid.1 ==> byte_in_class(#[trigger] b@[i], ByteClass::Digit)
            &&& uid matches Some(u) ==> u.0 <= u.1 <= b@.len()
        },
{
    let n = b.len();
    if i1 >= n {
        return IdsFound::NeedMore;
    }
    if !is_in_byte_class(b[i1], &ByteClass::Word) {
        return IdsFound::Bad;
    }
    let i2 = byte_run(b, i1, ByteClass::Word);
    if i2 >= n {
        return IdsFound::NeedMore;
    }
    if b[i2] != 58 {
        return IdsFound::Bad;
    }
    let i3 = byte_run(b, i2 + 1, ByteClass::Space);
    if i3 >= n {
        return IdsFound::NeedMore;
    }
    if !is_in_byte_class(b[i3], &ByteClass::Digit) {
        return IdsFound::Bad;
    }
    let i4 = byte_run(b, i3, ByteClass::Digit);
    if i4 >= n {
        return IdsFound::NeedMore;
    }
    if b[i4] == 58 {
        let i5 = byte_run(b, i4 + 1, ByteClass::Space);
        if i5 >= n {
            return IdsFound::NeedMore;
        }
        if !is_in_byte_class(b[i5], &ByteClass::Digit) {
            return IdsFound::Bad;
        }
        let i6 = byte_run(b, i5, ByteClass::Digit);
        if i6 >= n {
            return IdsFound::NeedMore;
        }
        return IdsFound::Done { uid: Some((i1, i2)), pid: (i3, i4), tid: (i5, i6), end: i6 };
    }
    let d = byte_run(b, i1, ByteClass::Digit);
    if d < i2 {
        return IdsFound::Bad;
    }
    IdsFound::Done { uid: None, pid: (i1, i2), tid: (i3, i4), end: i4 }
}

/// The fields of a header, in executable form.
struct Header {
    timestamp: LogTimestamp,
    uid: Option<String>,
    pid: u32,
    tid: u32,
    level: LogLevel,
    tag_start: usize,
    tag_end: usize,
}

enum HeaderFound {
    NeedMore,
    Bad,
    Done(Header),
}

spec fn header_found_is(r: HeaderFound, s: HeaderScan) -> bool {
    match (r, s) {
        (HeaderFound::NeedMore, HeaderScan::NeedMore) => true,
        (HeaderFound::Bad, HeaderScan::Bad) => true,
        (HeaderFound::Done(h), HeaderScan::Done(v)) => {
            &&& (h.timestamp.unix_seconds, h.timestamp.nanos, h.timestamp.utc_offset_seconds)
                == v.timestamp
            &&& match (h.uid, v.uid) {
                (Some(a), Some(c)) => a@ == c,
                (None, None) => true,
                _ => false,
            }
            &&& h.pid == v.pid && h.tid == v.tid && h.level == v.level
            &&& h.tag_start == v.tag_start && h.tag_end == v.tag_end
        },
        _ => false,
    }
}

/// First start at or after `i` of ` ]\n` in `b`.
fn search_header_end(b: &Vec<u8>, i: usize) -> (r: Option<usize>)
    ensures
        r matches Some(k) ==> find_header_end(b@, i as int) == Some(k as int) && i <= k && k + 3
            <= b@.len(),
        r is None ==> find_header_end(b@, i as int) is None,
{
    let end = header_end_marker_bytes();
    let mut k = i;
    while k < b.len() && b.len() - k >= 3
        invariant
            end@ == header_end_marker(),
            i <= k,
            find_header_end(b@, i as int) == find_header_end(b@, k as int),
        decreases b@.len() - k,
    {
        if has_bytes_at(b, k, &end) {
            return Some(k);
        }
        k = k + 1;
    }
    None
}

#[verifier::rlimit(40)]
fn read_header(b: &Vec<u8>) -> (r: HeaderFound)
    ensures
        header_found_is(r, scan_header(b@)),
        r matches HeaderFound::Done(h) ==> h.tag_start <= h.tag_end && h.tag_end + 3 <= b.len(),
{
    let n = b.len();
    if n < MINIMAL_LOG_LEN {
        return HeaderFound::NeedMore;
    }
    if !has_bytes_at(b, 0, &header_marker_bytes()) {
        return HeaderFound::Bad;
    }
    let timestamp = match utf8_str(slice_subrange(b.as_slice(), 2, 2 + TIMESTAMP_LEN)) {
        Some(text) => parse_log_timestamp(text),
        None => {
            return HeaderFound::Bad;
        },
    };
    let timestamp = match timestamp {
        Some(t) => t,
        None => {
            return HeaderFound::Bad;
        },
    };
    if b[2 + TIMESTAMP_LEN] != 32 {
        return HeaderFound::Bad;
    }
    let i1 = byte_run(b, 2 + TIMESTAMP_LEN, ByteClass::Space);
    let (uid, pid, tid, end) = match find_ids(b, i1) {
        IdsFound::NeedMore => {
            return HeaderFound::NeedMore;
        },
        IdsFound::Bad => {
            return HeaderFound::Bad;
        },
        IdsFound::Done { uid, pid, tid, end } => (uid, pid, tid, end),
    };
    let pid_v = decimal_u32(b, pid.0, pid.1);
    let tid_v = decimal_u32(b, tid.0, tid.1);
    if pid_v.is_none() || tid_v.is_none() || b[end] != 32 {
        return HeaderFound::Bad;
    }
    if n - end <= 2 {
        return HeaderFound::NeedMore;
    }
    if b[end + 2] != 47 {
        return HeaderFound::Bad;
    }
    let level = level_from_letter(b[end + 1]);
    let tag_end = match search_header_end(b, end + 3) {
        Some(k) => k,
        None => {
            return HeaderFound::NeedMore;
        },
    };
    let uid = match uid {
        Some(u) => Some(utf8_lossy(slice_subrange(b.as_slice(), u.0, u.1))),
        None => None,
    };
    proof {
        reveal(find_header_end);
    }
    HeaderFound::Done(
        Header {
            timestamp,
            uid,
            pid: pid_v.unwrap(),
            tid: tid_v.unwrap(),
            level,
            tag_start: end + 3,
            tag_end,
        },
    )
}

/// Decoder of the long log format. It reads ring-buffer markers and
/// entries; on bytes it cannot read it recovers, collecting them until a
/// blank line before `-` or `[`, and yields them as unknown.
pub struct LogcatStringDecoder {
    is_in_error_state: bool,
    error_data: Vec<u8>,
}

/// Whether the decoder `d`, its result `r` and the buffer left after the
/// call, `after`, are those of the step `st` on `before`.
pub open spec fn text_outcome(
    st: TextStep,
    before: Seq<u8>,
    after: Seq<u8>,
    d: LogcatStringDecoder,
    r: Option<LogItem>,
) -> bool {
    &&& 0 <= st.consumed <= before.len()
    &&& after == before.subrange(st.consumed, before.len() as int)
    &&& d.recovering() == st.recovering
    &&& d.pending() == st.pending
    &&& item_is(r, st.item)
}

/// Removes the first `n` bytes of `src`.
fn consume(src: &mut Vec<u8>, n: usize)
    requires
        n <= old(src)@.len(),
    ensures
        final(src)@ == old(src)@.subrange(n as int, old(src)@.len() as int),
{
    let rest = src.split_off(n);
    *src = rest;
}

impl LogcatStringDecoder {
    /// Whether the decoder is recovering from bytes it could not read.
    pub closed spec fn recovering(&self) -> bool {
        self.is_in_error_state
    }

    /// The unknown bytes collected while recovering.
    pub closed spec fn pending(&self) -> Seq<u8> {
        self.error_data@
    }

    /// Unknown bytes are only held while recovering.
    pub open spec fn wf(&self) -> bool {
        !self.recovering() ==> self.pending().len() == 0
    }

    pub fn new() -> (r: Self)
        ensures
            !r.recovering(),
            r.pending() == Seq::<u8>::empty(),
    {
        LogcatStringDecoder { is_in_error_state: false, error_data: Vec::new() }
    }

    /// Looks for the place where the stream can be picked up again.
    fn scan_out_error_state(&mut self, src: &mut Vec<u8>) -> (r: Option<LogItem>)
        ensures
            text_outcome(
                recover_step(old(self).pending(), old(src)@),
                old(src)@,
                final(src)@,
                *final(self),
                r,
            ),
    {
        let n = src.len();
        let mut i: usize = 0;
        while n >= 3 && i <= n - 3
            invariant
                n == src@.len(),
                src@ == old(src)@,
                self.error_data@ == old(self).pending(),
                find_resync(src@, 0) == find_resync(src@, i as int),
            decreases n - i,
        {
            if src[i] == 10 && src[i + 1] == 10 && (src[i + 2] == 45 || src[i + 2] == 91) {
                let mut data: Vec<u8> = Vec::new();
                data.append(&mut self.error_data);
                let mut head = slice_to_vec(slice_subrange(src.as_slice(), 0, i));
                data.append(&mut head);
                consume(src, i + 2);
                self.is_in_error_state = false;
                return Some(LogItem::LogUnknown(data));
            }
            i = i + 1;
        }
        let mut all = slice_to_vec(src.as_slice());
        self.error_data.append(&mut all);
        src.clear();
        src.reserve(1024);
        self.is_in_error_state = true;
        assert(old(src)@.subrange(n as int, n as int) =~= src@);
        None
    }

    /// Starts recovering at the start of `src`.
    fn enter_error_state(&mut self, src: &mut Vec<u8>) -> (r: Option<LogItem>)
        requires
            old(self).pending().len() == 0,
        ensures
            text_outcome(recover_step(seq![], old(src)@), old(src)@, final(src)@, *final(self), r),
    {
        assert(old(self).pending() =~= seq![]);
        self.scan_out_error_state(src)
    }

    /// Reads `--------- beginning of <name>\n`.
    fn decode_beginning_of_ring_buffer(&mut self, src: &mut Vec<u8>) -> (r: Option<LogItem>)
        requires
            !old(self).recovering(),
            old(self).pending().len() == 0,
        ensures
            text_outcome(beginning_step(old(src)@), old(src)@, final(src)@, *final(self), r),
    {
        let marker = beginning_marker_bytes();
        let m = marker.len();
        if src.len() < m {
            src.reserve(m - src.len() + 128);
            assert(self.pending() =~= seq![]);
            assert(src@.subrange(0, src@.len() as int) =~= src@);
            return None;
        }
        if !has_bytes_at(src, 0, &marker) {
            return self.enter_error_state(src);
        }
        let k = byte_run(src, m, ByteClass::Word);
        if k >= src.len() {
            src.reserve(128);
            assert(self.pending() =~= seq![]);
            assert(src@.subrange(0, src@.len() as int) =~= src@);
            return None;
        }
        if src[k] != 10 {
            return self.enter_error_state(src);
        }
        let name = utf8_lossy(slice_subrange(src.as_slice(), m, k));
        consume(src, k + 1);
        assert(self.pending() =~= seq![]);
        Some(LogItem::LogBeginning(name))
    }

    /// First end of the message at or after `i`.
    fn search_message_end(src: &Vec<u8>, i: usize) -> (r: Option<usize>)
        ensures
            r matches Some(e) ==> find_message_end(src@, i as int) == Some(e as int) && i <= e
                && e + MESSAGE_LOOKAHEAD <= src.len(),
            r is None ==> find_message_end(src@, i as int) is None,
    {
        let marker = beginning_marker_bytes();
        let header = header_marker_bytes();
        let n = src.len();
        let mut e = i;
        while e < n && n - e >= MESSAGE_LOOKAHEAD
            invariant
                n == src@.len(),
                marker@ == beginning_marker(),
                header@ == header_marker(),
                i <= e,
                find_message_end(src@, i as int) == find_message_end(src@, e as int),
            decreases n - e,
        {
            if src[e] == 10 && src[e + 1] == 10 && (has_bytes_at(src, e + 2, &marker)
                || has_bytes_at(src, e + 2, &header)) {
                return Some(e);
            }
            e = e + 1;
        }
        None
    }

    /// Reads one entry: its header and its message.
    fn decode_log(&mut self, src: &mut Vec<u8>) -> (r: Option<LogItem>)
        requires
            !old(self).recovering(),
            old(self).pending().len() == 0,
        ensures
            text_outcome(entry_step(old(src)@), old(src)@, final(src)@, *final(self), r),
    {
        let h = match read_header(src) {
            HeaderFound::NeedMore => {
                src.reserve(1024);
                assert(self.pending() =~= seq![]);
                assert(src@.subrange(0, src@.len() as int) =~= src@);
                return None;
            },
            HeaderFound::Bad => {
                return self.enter_error_state(src);
            },
            HeaderFound::Done(h) => h,
        };
        let message_start = h.tag_end + 3;
        let message_end = match Self::search_message_end(src, message_start) {
            Some(e) => e,
            None => {
                src.reserve(1024);
                assert(self.pending() =~= seq![]);
                assert(src@.subrange(0, src@.len() as int) =~= src@);
                return None;
            },
        };
        let raw_tag = utf8_lossy(slice_subrange(src.as_slice(), h.tag_start, h.tag_end));
        let tag = trim(raw_tag.as_str());
        let message = slice_to_vec(slice_subrange(src.as_slice(), message_start, message_end));
        consume(src, message_end + 2);
        assert(self.pending() =~= seq![]);
        Some(
            LogItem::LogMessage(
                LogLongMessage {
                    timestamp: h.timestamp,
                    uid: h.uid,
                    pid: h.pid,
                    tid: h.tid,
                    level: h.level,
                    tag,
                    message,
                },
            ),
        )
    }

    /// Decodes the next item at the start of `src` and removes what it read
    /// from `src`. Returns `None` while more bytes are needed; then only
    /// bytes collected during recovery are consumed.
    pub fn decode(&mut self, src: &mut Vec<u8>) -> (r: Option<LogItem>)
        requires
            old(self).wf(),
        ensures
            text_outcome(
                text_step(old(self).recovering(), old(self).pending(), old(src)@),
                old(src)@,
                final(src)@,
                *final(self),
                r,
            ),
            final(self).wf(),
    {
        if self.is_in_error_state {
            return self.scan_out_error_state(src);
        }
        if src.len() == 0 {
            assert(self.pending() =~= seq![]);
            assert(src@.subrange(0, 0) =~= src@);
            return None;
        }
        let first = src[0];
        if first == 45 {
            return self.decode_beginning_of_ring_buffer(src);
        }
        if first != 91 {
            return self.enter_error_state(src);
        }
        self.decode_log(src)
    }
}

proof fn lemma_byte_run_prefix(b: Seq<u8>, k: int, i: int, cls: ByteClass)
    requires
        0 <= i <= k <= b.len(),
    ensures
        byte_run_end(b.subrange(0, k), i, cls) == if byte_run_end(b, i, cls) < k {
            byte_run_end(b, i, cls)
        } else {
            k
        },
    decreases k - i,
{
    lemma_byte_run_end(b, i, cls);
    if i < k && byte_in_class(b[i], cls) {
        lemma_byte_run_prefix(b, k, i + 1, cls);
    }
}

proof fn lemma_ids_bounds(b: Seq<u8>, i1: int)
    requires
        0 <= i1 <= b.len(),
    ensures
        scan_ids(b, i1) matches IdsScan::Done { uid, pid, tid, end } ==> {
            &&& 0 <= pid.0 <= pid.1 <= end < b.len()
            &&& 0 <= tid.0 <= tid.1 <= end
            &&& uid matches Some(u) ==> 0 <= u.0 <= u.1 <= end
        },
{
    let i2 = byte_run_end(b, i1, ByteClass::Word);
    lemma_byte_run_end(b, i1, ByteClass::Word);
    if i2 < b.len() {
        let i3 = byte_run_end(b, i2 + 1, ByteClass::Space);
        lemma_byte_run_end(b, i2 + 1, ByteClass::Space);
        let i4 = byte_run_end(b, i3, ByteClass::Digit);
        lemma_byte_run_end(b, i3, ByteClass::Digit);
        if i4 < b.len() {
            lemma_byte_run_end(b, i4 + 1, ByteClass::Space);
            let i5 = byte_run_end(b, i4 + 1, ByteClass::Space);
            lemma_byte_run_end(b, i5, ByteClass::Digit);
        }
    }
}

proof fn lemma_ids_prefix(b: Seq<u8>, k: int, i1: int)
    requires
        0 <= i1 <= k <= b.len(),
        scan_ids(b, i1) is Done,
    ensures
        scan_ids(b.subrange(0, k), i1) is NeedMore || scan_ids(b.subrange(0, k), i1) == scan_ids(
            b,
            i1,
        ),
{
    let p = b.subrange(0, k);
    let i2 = byte_run_end(b, i1, ByteClass::Word);
    lemma_byte_run_end(b, i1, ByteClass::Word);
    lemma_byte_run_prefix(b, k, i1, ByteClass::Word);
    if i1 >= k || i2 >= k {
        return;
    }
    let i3 = byte_run_end(b, i2 + 1, ByteClass::Space);
    lemma_byte_run_end(b, i2 + 1, ByteClass::Space);
    lemma_byte_run_prefix(b, k, i2 + 1, ByteClass::Space);
    if i3 >= k {
        return;
    }
    let i4 = byte_run_end(b, i3, ByteClass::Digit);
    lemma_byte_run_end(b, i3, ByteClass::Digit);
    lemma_byte_run_prefix(b, k, i3, ByteClass::Digit);
    if i4 >= k {
        return;
    }
    assert(p[i4] == b[i4]);
    if b[i4] == 58 {
        let i5 = byte_run_end(b, i4 + 1, ByteClass::Space);
        lemma_byte_run_end(b, i4 + 1, ByteClass::Space);
        lemma_byte_run_prefix(b, k, i4 + 1, ByteClass::Space);
        if i5 >= k {
            return;
        }
        let i6 = byte_run_end(b, i5, ByteClass::Digit);
        lemma_byte_run_end(b, i5, ByteClass::Digit);
        lemma_byte_run_prefix(b, k, i5, ByteClass::Digit);
    } else {
        let d = byte_run_end(b, i1, ByteClass::Digit);
        lemma_byte_run_end(b, i1, ByteClass::Digit);
        lemma_byte_run_prefix(b, k, i1, ByteClass::Digit);
        assert(d <= i2) by {
            if d > i2 {
                assert(byte_in_class(b[i2], ByteClass::Digit));
            }
        }
    }
}

proof fn lemma_header_end_at_least(b: Seq<u8>, i: int)
    ensures
        find_header_end(b, i) matches Some(t) ==> i <= t,
    decreases b.len() - i,
{
    if 0 <= i && i + 3 <= b.len() && !bytes_at(b, i, header_end_marker()) {
        lemma_header_end_at_least(b, i + 1);
    }
}

proof fn lemma_header_end_prefix(b: Seq<u8>, k: int, i: int, t: int)
    requires
        0 <= i <= k <= b.len(),
        find_header_end(b, i) == Some(t),
    ensures
        find_header_end(b.subrange(0, k), i) == if t + 3 <= k {
            Some(t)
        } else {
            None::<int>
        },
    decreases b.len() - i,
{
    let p = b.subrange(0, k);
    lemma_header_end_at_least(b, i);
    if i + 3 <= k {
        assert(b.subrange(i, i + 3) == p.subrange(i, i + 3));
        if !bytes_at(b, i, header_end_marker()) {
            lemma_header_end_prefix(b, k, i + 1, t);
        }
    }
}

proof fn lemma_message_end_at_least(b: Seq<u8>, i: int)
    ensures
        find_message_end(b, i) matches Some(e) ==> i <= e,
    decreases b.len() - i,
{
    if 0 <= i && i + MESSAGE_LOOKAHEAD <= b.len() && !message_break(b, i) {
        lemma_message_end_at_least(b, i + 1);
    }
}

proof fn lemma_message_end_prefix(b: Seq<u8>, k: int, i: int, e: int)
    requires
        0 <= i <= e,
        0 <= k <= b.len(),
        k < e + MESSAGE_LOOKAHEAD,
        find_message_end(b, i) == Some(e),
    ensures
        find_message_end(b.subrange(0, k), i) is None,
    decreases e - i,
{
    let p = b.subrange(0, k);
    if i + MESSAGE_LOOKAHEAD <= k {
        assert(i < e);
        assert(p[i] == b[i] && p[i + 1] == b[i + 1]);
        assert(p.subrange(i + 2, i + 2 + beginning_marker().len()) == b.subrange(
            i + 2,
            i + 2 + beginning_marker().len(),
        ));
        assert(p.subrange(i + 2, i + 2 + header_marker().len()) == b.subrange(
            i + 2,
            i + 2 + header_marker().len(),
        ));
        lemma_message_end_prefix(b, k, i + 1, e);
    }
}

/// A whole entry cut short anywhere before the decoder can tell where its
/// message ends asks for more bytes: on such a prefix the decoder yields
/// nothing, consumes nothing and does not start recovering.
#[verifier::rlimit(60)]
pub proof fn lemma_entry_truncation_needs_more(b: Seq<u8>, k: int)
    requires
        b.len() > 0,
        b[0] == 91,
        entry_step(b).item is Some,
        entry_step(b).item->0 is Message,
        0 <= k < entry_step(b).consumed - 2 + MESSAGE_LOOKAHEAD,
        k <= b.len(),
    ensures
        text_step(false, seq![], b.subrange(0, k)) == wait_step(),
{
    let p = b.subrange(0, k);
    if k >= MINIMAL_LOG_LEN {
        let h = scan_header(b)->0;
        let ts = b.subrange(2, 2 + TIMESTAMP_LEN);
        assert(p.subrange(2, 2 + TIMESTAMP_LEN) == ts);
        assert(p.subrange(0, 2) == b.subrange(0, 2));
        let i1 = byte_run_end(b, 2 + TIMESTAMP_LEN, ByteClass::Space);
        lemma_byte_run_end(b, 2 + TIMESTAMP_LEN, ByteClass::Space);
        lemma_byte_run_prefix(b, k, 2 + TIMESTAMP_LEN, ByteClass::Space);
        let e = find_message_end(b, h.tag_end + 3)->0;
        if i1 < k {
            lemma_ids_prefix(b, k, i1);
            lemma_ids_bounds(b, i1);
            if scan_ids(p, i1) is Done {
                let (uid, pid, tid, end) = match scan_ids(b, i1) {
                    IdsScan::Done { uid, pid, tid, end } => (uid, pid, tid, end),
                    _ => arbitrary(),
                };
                assert(end < k);
                assert(p.subrange(pid.0, pid.1) == b.subrange(pid.0, pid.1));
                assert(p.subrange(tid.0, tid.1) == b.subrange(tid.0, tid.1));
                assert(p[end] == b[end]);
                if end + 2 < k {
                    assert(p[end + 1] == b[end + 1] && p[end + 2] == b[end + 2]);
                    lemma_header_end_prefix(b, k, end + 3, h.tag_end);
                    if h.tag_end + 3 <= k {
                        match uid {
                            Some(u) => {
                                assert(p.subrange(u.0, u.1) == b.subrange(u.0, u.1));
                            },
                            None => {},
                        }
                        assert(scan_header(p) == scan_header(b));
                        lemma_message_end_at_least(b, h.tag_end + 3);
                        lemma_message_end_prefix(b, k, h.tag_end + 3, e);
                    }
                }
            }
        }
    }
}

/// A ring-buffer marker cut short anywhere asks for more bytes: on every
/// proper prefix of it the decoder yields nothing, consumes nothing and does
/// not start recovering.
pub proof fn lemma_beginning_truncation_needs_more(b: Seq<u8>, k: int)
    requires
        b.len() > 0,
        b[0] == 45,
        beginning_step(b).item is Some,
        beginning_step(b).item->0 is Beginning,
        0 <= k < beginning_step(b).consumed,
    ensures
        text_step(false, seq![], b.subrange(0, k)) == wait_step(),
{
    let m = beginning_marker().len() as int;
    assert(b.len() >= m);
    lemma_byte_run_end(b, m, ByteClass::Word);
    let p = b.subrange(0, k);
    if k >= m {
        assert(p.subrange(0, m) == b.subrange(0, m));
        lemma_byte_run_prefix(b, k, m, ByteClass::Word);
    }
}

proof fn lemma_resync_at(b: Seq<u8>, i: int, g: int)
    requires
        0 <= i <= g,
        g + 3 <= b.len(),
        resync_at(b, g),
        forall|j: int| i <= j < g ==> !#[trigger] resync_at(b, j),
    ensures
        find_resync(b, i) == Some(g),
    decreases g - i,
{
    if i < g {
        lemma_resync_at(b, i + 1, g);
    }
}

proof fn lemma_byte_run_exact(b: Seq<u8>, i: int, j: int, cls: ByteClass)
    requires
        0 <= i <= j <= b.len(),
        forall|q: int| i <= q < j ==> byte_in_class(#[trigger] b[q], cls),
        j == b.len() || !byte_in_class(b[j], cls),
    ensures
        byte_run_end(b, i, cls) == j,
    decreases j - i,
{
    if i < j {
        lemma_byte_run_exact(b, i + 1, j, cls);
    }
}

/// Unreadable bytes followed by a blank line and a ring-buffer marker come
/// back whole: the first call yields exactly those bytes as unknown and
/// consumes the blank line too, the next yields the marker's name. The
/// unreadable bytes may not themselves hold a blank line before `-` or `[`,
/// where recovery would stop earlier.
#[verifier::rlimit(80)]
pub proof fn lemma_recovery_then_beginning(garbage: Seq<u8>, name: Seq<u8>)
    requires
        garbage.len() > 0,
        garbage[0] != 45 && garbage[0] != 91,
        forall|q: int| 0 <= q < name.len() ==> byte_in_class(#[trigger] name[q], ByteClass::Word),
        forall|j: int| 0 <= j < garbage.len() ==> !#[trigger] resync_at(before_marker(garbage), j),
    ensures
        ({
            let b = garbage + seq![10u8, 10u8] + beginning_marker() + name + seq![10u8];
            let first = text_step(false, seq![], b);
            let rest = b.subrange(first.consumed, b.len() as int);
            &&& first == TextStep {
                item: Some(ItemView::Unknown(garbage)),
                recovering: false,
                pending: seq![],
                consumed: garbage.len() + 2int,
            }
            &&& text_step(false, seq![], rest) == TextStep {
                item: Some(ItemView::Beginning(lossy_utf8(name))),
                recovering: false,
                pending: seq![],
                consumed: rest.len() as int,
            }
        }),
{
    let head = garbage + seq![10u8, 10u8] + beginning_marker();
    let b = head + name + seq![10u8];
    let g = garbage.len() as int;
    let c = before_marker(garbage);
    assert forall|j: int| 0 <= j < g implies !#[trigger] resync_at(b, j) by {
        assert(!resync_at(c, j));
        assert(b[j] == c[j] && b[j + 1] == c[j + 1] && b[j + 2] == c[j + 2]);
    }
    assert(b[g] == 10 && b[g + 1] == 10 && b[g + 2] == 45);
    lemma_resync_at(b, 0, g);
    assert(b[0] == garbage[0]);
    assert(text_step(false, seq![], b) == recover_step(seq![], b));
    assert(b.subrange(0, g) =~= garbage);
    assert(Seq::<u8>::empty() + garbage =~= garbage);
    let rest = b.subrange(g + 2, b.len() as int);
    let m = beginning_marker().len() as int;
    assert(rest =~= beginning_marker() + name + seq![10u8]);
    assert(rest.subrange(0, m) =~= beginning_marker());
    assert forall|q: int| m <= q < m + name.len() implies byte_in_class(
        #[trigger] rest[q],
        ByteClass::Word,
    ) by {
        assert(rest[q] == name[q - m]);
    }
    lemma_byte_run_exact(rest, m, m + name.len(), ByteClass::Word);
    assert(rest.subrange(m, m + name.len()) =~= name);
    assert(rest[0] == 45);
    assert(text_step(false, seq![], rest) == beginning_step(rest));
}

} // verus!
