//! Device enumeration lines and the length-framed device-tracking feed.
use vstd::prelude::*;

use vstd::slice::slice_subrange;
use vstd::utf8::{decode_utf8, valid_utf8};

use crate::strings::{char_is_space, is_space, utf8_str};

verus! {

/// Live properties that the long form of an enumeration line adds.
#[derive(Clone, Debug)]
pub struct AdbDeviceLiveProperties {
    pub product: String,
    pub model: String,
    pub device: String,
    pub transport_id: usize,
}

/// State and path of a device, and its live properties where known.
#[derive(Clone, Debug)]
pub struct AdbDeviceProperties {
    pub connection_state: String,
    pub devpath: String,
    pub live: Option<AdbDeviceLiveProperties>,
}

/// One device of an enumeration.
#[derive(Clone, Debug)]
pub struct AdbDevice {
    pub connection_name: String,
    pub properties: AdbDeviceProperties,
}

/// Failures of the device feed.
#[derive(Debug)]
pub enum Error {
    /// A frame of the tracking feed could not be read.
    TrackDevicesDecodeError(TrackDevicesDecodeError),
    /// A line that is no device enumeration line.
    Parse(String),
}

/// Why a frame of the tracking feed could not be read.
#[derive(Clone, Copy, Debug, PartialEq, Eq, Structural)]
pub enum TrackDevicesDecodeError {
    /// The payload is not valid UTF-8.
    Utf8Error,
    /// The length field is not four hexadecimal digits.
    ParseIntError,
}

pub struct LiveView {
    pub product: Seq<char>,
    pub model: Seq<char>,
    pub device: Seq<char>,
    pub transport_id: nat,
}

pub struct PropertiesView {
    pub connection_state: Seq<char>,
    pub devpath: Seq<char>,
    pub live: Option<LiveView>,
}

pub struct DeviceView {
    pub connection_name: Seq<char>,
    pub properties: PropertiesView,
}

impl AdbDeviceLiveProperties {
    pub open spec fn view(&self) -> LiveView {
        LiveView {
            product: self.product@,
            model: self.model@,
            device: self.device@,
            transport_id: self.transport_id as nat,
        }
    }
}

impl AdbDeviceProperties {
    pub open spec fn view(&self) -> PropertiesView {
        PropertiesView {
            connection_state: self.connection_state@,
            devpath: self.devpath@,
            live: match self.live {
                Some(l) => Some(l.view()),
                None => None,
            },
        }
    }
}

impl AdbDevice {
    pub open spec fn view(&self) -> DeviceView {
        DeviceView { connection_name: self.connection_name@, properties: self.properties.view() }
    }
}

/// The character classes of the enumeration grammar.
pub enum CharClass {
    /// Word characters and punctuation, of which a serial is made.
    Name,
    /// White space.
    Space,
    /// Letters, of which a connection state is made.
    Alpha,
    /// Letters, digits, `-` and `:`, of which a device path is made.
    Path,
    /// Decimal digits.
    Digit,
    /// Hexadecimal digits.
    Hex,
}

pub open spec fn is_ascii_alnum(c: char) -> bool {
    ('0' <= c && c <= '9') || ('a' <= c && c <= 'z') || ('A' <= c && c <= 'Z')
}

pub open spec fn is_ascii_punct(c: char) -> bool {
    ('!' <= c && c <= '/') || (':' <= c && c <= '@') || ('[' <= c && c <= '`') || ('{' <= c
        && c <= '~')
}

pub open spec fn in_class(c: char, cls: CharClass) -> bool {
    match cls {
        CharClass::Name => is_ascii_alnum(c) || c == '_' || is_ascii_punct(c),
        CharClass::Space => is_space(c),
        CharClass::Alpha => ('a' <= c && c <= 'z') || ('A' <= c && c <= 'Z'),
        CharClass::Path => is_ascii_alnum(c) || c == '-' || c == ':',
        CharClass::Digit => '0' <= c && c <= '9',
        CharClass::Hex => ('0' <= c && c <= '9') || ('a' <= c && c <= 'f') || ('A' <= c && c
            <= 'F'),
    }
}

fn char_in_class(c: char, cls: &CharClass) -> (r: bool)
    ensures
        r == in_class(c, *cls),
{
    match cls {
        CharClass::Name => ('0' <= c && c <= '9') || ('a' <= c && c <= 'z') || ('A' <= c && c
            <= 'Z') || c == '_' || ('!' <= c && c <= '/') || (':' <= c && c <= '@') || ('['
            <= c && c <= '`') || ('{' <= c && c <= '~'),
        CharClass::Space => char_is_space(c),
        CharClass::Alpha => ('a' <= c && c <= 'z') || ('A' <= c && c <= 'Z'),
        CharClass::Path => ('0' <= c && c <= '9') || ('a' <= c && c <= 'z') || ('A' <= c && c
            <= 'Z') || c == '-' || c == ':',
        CharClass::Digit => '0' <= c && c <= '9',
        CharClass::Hex => ('0' <= c && c <= '9') || ('a' <= c && c <= 'f') || ('A' <= c && c
            <= 'F'),
    }
}

/// End of the longest run of characters of `cls` in `s` from `i`.
pub open spec fn run_end(s: Seq<char>, i: int, cls: CharClass) -> int
    decreases s.len() - i,
{
    if 0 <= i < s.len() && in_class(s[i], cls) {
        run_end(s, i + 1, cls)
    } else {
        i
    }
}

pub(crate) proof fn lemma_run_end_bounds(s: Seq<char>, i: int, cls: CharClass)
    requires
        0 <= i <= s.len(),
    ensures
        i <= run_end(s, i, cls) <= s.len(),
        forall|j: int| i <= j < run_end(s, i, cls) ==> in_class(#[trigger] s[j], cls),
        run_end(s, i, cls) < s.len() ==> !in_class(s[run_end(s, i, cls)], cls),
    decreases s.len() - i,
{
    if i < s.len() && in_class(s[i], cls) {
        lemma_run_end_bounds(s, i + 1, cls);
    }
}

pub(crate) fn scan_run(cs: &Vec<char>, i: usize, cls: &CharClass) -> (r: usize)
    requires
        i <= cs@.len(),
    ensures
        r == run_end(cs@, i as int, *cls),
{
    let mut j = i;
    while j < cs.len() && char_in_class(cs[j], cls)
        invariant
            i <= j <= cs@.len(),
            run_end(cs@, i as int, *cls) == run_end(cs@, j as int, *cls),
        decreases cs@.len() - j,
    {
        j = j + 1;
    }
    j
}

/// The labels of the long form: `product:`, `model:`, `device:` and
/// `transport_id:`.
pub open spec fn label(k: nat) -> Seq<char> {
    if k == 0 {
        seq!['p', 'r', 'o', 'd', 'u', 'c', 't', ':']
    } else if k == 1 {
        seq!['m', 'o', 'd', 'e', 'l', ':']
    } else if k == 2 {
        seq!['d', 'e', 'v', 'i', 'c', 'e', ':']
    } else {
        seq!['t', 'r', 'a', 'n', 's', 'p', 'o', 'r', 't', '_', 'i', 'd', ':']
    }
}

fn label_chars(k: usize) -> (r: Vec<char>)
    ensures
        r@ == label(k as nat),
{
    if k == 0 {
        vec!['p', 'r', 'o', 'd', 'u', 'c', 't', ':']
    } else if k == 1 {
        vec!['m', 'o', 'd', 'e', 'l', ':']
    } else if k == 2 {
        vec!['d', 'e', 'v', 'i', 'c', 'e', ':']
    } else {
        vec!['t', 'r', 'a', 'n', 's', 'p', 'o', 'r', 't', '_', 'i', 'd', ':']
    }
}

/// Whether `t` starts with `w`.
pub open spec fn starts_with(t: Seq<char>, w: Seq<char>) -> bool {
    w.len() <= t.len() && t.subrange(0, w.len() as int) == w
}

/// Whether the value of field `k` (0: product, 1: model, 2: device) can
/// span `t[..e]`, the rest of `t` matching the fields after it: a value is
/// one character or more other than a newline, then white space and the next
/// label; the transport id is one digit or more.
pub open spec fn value_ends_at(t: Seq<char>, k: nat, e: int) -> bool
    decreases 3 - k, 0int,
{
    &&& k < 3
    &&& 1 <= e < t.len()
    &&& forall|i: int| 0 <= i < e ==> t[i] != '\n'
    &&& is_space(t[e])
    &&& starts_with(t.subrange(e + 1, t.len() as int), label(k + 1))
    &&& fields_from(t.subrange(e + 1 + label(k + 1).len(), t.len() as int), k + 1)
}

/// Whether `t` starts with the value of field `k` and all that follows it.
pub open spec fn fields_from(t: Seq<char>, k: nat) -> bool
    decreases 3 - k, t.len() + 1,
{
    if k >= 3 {
        t.len() > 0 && in_class(t[0], CharClass::Digit)
    } else {
        last_value_end(t, k, t.len() - 1) >= 1
    }
}

/// The largest `e` of `1..=hi` at which the value of field `k` can end in
/// `t`, or 0 where there is none: a value takes as much as it can.
pub open spec fn last_value_end(t: Seq<char>, k: nat, hi: int) -> int
    decreases 3 - k, hi + 1,
{
    if hi < 1 || k >= 3 {
        0
    } else if value_ends_at(t, k, hi) {
        hi
    } else {
        last_value_end(t, k, hi - 1)
    }
}

/// `value_ends_at` on `cs[base..]`.
fn check_value_end(cs: &Vec<char>, base: usize, k: usize, e: usize) -> (r: bool)
    requires
        base <= cs@.len(),
    ensures
        r == value_ends_at(cs@.subrange(base as int, cs@.len() as int), k as nat, e as int),
    decreases 3 - k, 0int,
{
    let ghost t = cs@.subrange(base as int, cs@.len() as int);
    let n = cs.len() - base;
    if k >= 3 || e < 1 || e >= n {
        return false;
    }
    let mut i: usize = 0;
    while i < e
        invariant
            t == cs@.subrange(base as int, cs@.len() as int),
            base <= cs@.len(),
            cs@.len() <= usize::MAX,
            n == t.len(),
            1 <= e < n,
            k < 3,
            i <= e,
            forall|j: int| 0 <= j < i ==> t[j] != '\n',
        decreases e - i,
    {
        if cs[base + i] == '\n' {
            assert(t[i as int] == '\n');
            return false;
        }
        i = i + 1;
    }
    if !char_is_space(cs[base + e]) {
        return false;
    }
    let lab = label_chars(k + 1);
    let start = base + e + 1;
    let ghost u = t.subrange(e + 1, t.len() as int);
    if lab.len() > cs.len() - start {
        return false;
    }
    let mut j: usize = 0;
    while j < lab.len()
        invariant
            t == cs@.subrange(base as int, cs@.len() as int),
            u == t.subrange(e + 1, t.len() as int),
            base <= cs@.len(),
            cs@.len() <= usize::MAX,
            1 <= e < t.len(),
            k < 3,
            lab@ == label((k + 1) as nat),
            forall|q: int| 0 <= q < e ==> t[q] != '\n',
            is_space(t[e as int]),
            start == base + e + 1,
            start + lab@.len() <= cs@.len(),
            j <= lab@.len(),
            forall|q: int| 0 <= q < j ==> u[q] == lab@[q],
        decreases lab@.len() - j,
    {
        if cs[start + j] != lab[j] {
            assert(u[j as int] != lab@[j as int]);
            assert(u.subrange(0, lab@.len() as int)[j as int] != lab@[j as int]);
            return false;
        }
        j = j + 1;
    }
    assert(u.subrange(0, lab@.len() as int) =~= lab@);
    let next = start + lab.len();
    assert(t.subrange(e + 1 + label((k + 1) as nat).len(), t.len() as int) =~= cs@.subrange(
        next as int,
        cs@.len() as int,
    ));
    check_fields_from(cs, next, k + 1)
}

/// `fields_from` on `cs[base..]`.
fn check_fields_from(cs: &Vec<char>, base: usize, k: usize) -> (r: bool)
    requires
        base <= cs@.len(),
    ensures
        r == fields_from(cs@.subrange(base as int, cs@.len() as int), k as nat),
    decreases 3 - k, cs@.len() - base + 1,
{
    let n = cs.len() - base;
    if k >= 3 {
        n > 0 && '0' <= cs[base] && cs[base] <= '9'
    } else if n == 0 {
        false
    } else {
        find_last_value_end(cs, base, k, n - 1) >= 1
    }
}

/// `last_value_end` on `cs[base..]`.
fn find_last_value_end(cs: &Vec<char>, base: usize, k: usize, hi: usize) -> (r: usize)
    requires
        base <= cs@.len(),
        hi < cs@.len() - base,
    ensures
        r == last_value_end(cs@.subrange(base as int, cs@.len() as int), k as nat, hi as int),
    decreases 3 - k, hi + 1,
{
    let ghost t = cs@.subrange(base as int, cs@.len() as int);
    if k >= 3 {
        return 0;
    }
    let mut h = hi;
    while h >= 1
        invariant
            t == cs@.subrange(base as int, cs@.len() as int),
            base <= cs@.len(),
            hi < cs@.len() - base,
            h <= hi,
            k < 3,
            last_value_end(t, k as nat, hi as int) == last_value_end(t, k as nat, h as int),
        decreases h,
    {
        if check_value_end(cs, base, k, h) {
            return h;
        }
        h = h - 1;
    }
    0
}

/// Value of the decimal digits `d`.
pub open spec fn digits_value(d: Seq<char>) -> nat
    decreases d.len(),
{
    if d.len() == 0 {
        0
    } else {
        digits_value(d.drop_last()) * 10 + ((d.last() as u32 - '0' as u32) as nat)
    }
}

/// Live properties of the long form, read from `t`, the text after the
/// device path; nothing where it does not follow the form or where the
/// transport id does not fit in a `usize`.
pub open spec fn live_from(t: Seq<char>) -> Option<LiveView> {
    if t.len() >= 1 && is_space(t[0]) && starts_with(t.subrange(1, t.len() as int), label(0))
        && fields_from(t.subrange(1 + label(0).len() as int, t.len() as int), 0) {
        let tp = t.subrange(1 + label(0).len() as int, t.len() as int);
        let pe = last_value_end(tp, 0, tp.len() - 1);
        let tm = tp.subrange(pe + 1 + label(1).len() as int, tp.len() as int);
        let me = last_value_end(tm, 1, tm.len() - 1);
        let td = tm.subrange(me + 1 + label(2).len() as int, tm.len() as int);
        let de = last_value_end(td, 2, td.len() - 1);
        let tt = td.subrange(de + 1 + label(3).len() as int, td.len() as int);
        let id = digits_value(tt.subrange(0, run_end(tt, 0, CharClass::Digit)));
        if id <= usize::MAX {
            Some(
                LiveView {
                    product: tp.subrange(0, pe),
                    model: tm.subrange(0, me),
                    device: td.subrange(0, de),
                    transport_id: id,
                },
            )
        } else {
            None
        }
    } else {
        None
    }
}

/// The device that the enumeration line `s` describes: a serial of word and
/// punctuation characters, white space, a state of letters, one white-space
/// character, a device path, and optionally the long form's live properties.
/// Text after that is ignored.
pub open spec fn parse_line(s: Seq<char>) -> Option<DeviceView> {
    let a = run_end(s, 0, CharClass::Name);
    let b = run_end(s, a, CharClass::Space);
    let c = run_end(s, b, CharClass::Alpha);
    let d = run_end(s, c + 1, CharClass::Path);
    if 0 < a && a < b && b < c && c < s.len() && is_space(s[c]) && c + 1 < d {
        Some(
            DeviceView {
                connection_name: s.subrange(0, a),
                properties: PropertiesView {
                    connection_state: s.subrange(b, c),
                    devpath: s.subrange(c + 1, d),
                    live: live_from(s.subrange(d, s.len() as int)),
                },
            },
        )
    } else {
        None
    }
}

proof fn lemma_digits_value_prefix(d: Seq<char>, j: int)
    requires
        0 <= j <= d.len(),
    ensures
        digits_value(d.subrange(0, j)) <= digits_value(d),
    decreases d.len(),
{
    if j < d.len() {
        assert(d.drop_last() =~= d.subrange(0, d.len() - 1));
        lemma_digits_value_prefix(d.drop_last(), j);
        assert(d.drop_last().subrange(0, j) =~= d.subrange(0, j));
    } else {
        assert(d.subrange(0, j) =~= d);
    }
}

/// Value of the digits `cs[from..to]`, where it fits in a `usize`.
pub(crate) fn digits_to_usize(cs: &Vec<char>, from: usize, to: usize) -> (r: Option<usize>)
    requires
        from <= to <= cs@.len(),
        forall|i: int| from <= i < to ==> in_class(#[trigger] cs@[i], CharClass::Digit),
    ensures
        digits_value(cs@.subrange(from as int, to as int)) <= usize::MAX ==> r == Some(
            digits_value(cs@.subrange(from as int, to as int)) as usize,
        ),
        digits_value(cs@.subrange(from as int, to as int)) > usize::MAX ==> r is None,
{
    let ghost d = cs@.subrange(from as int, to as int);
    let mut v: usize = 0;
    let mut i = from;
    while i < to
        invariant
            from <= i <= to <= cs@.len(),
            d == cs@.subrange(from as int, to as int),
            forall|q: int| from <= q < to ==> in_class(#[trigger] cs@[q], CharClass::Digit),
            v == digits_value(d.subrange(0, i - from)),
        decreases to - i,
    {
        let c = cs[i];
        assert(in_class(cs@[i as int], CharClass::Digit));
        let x = (c as u32 - '0' as u32) as usize;
        let ghost p = d.subrange(0, i + 1 - from as int);
        assert(p.drop_last() =~= d.subrange(0, i - from as int));
        assert(p.last() == c);
        match v.checked_mul(10) {
            Some(m) => match m.checked_add(x) {
                Some(n) => {
                    v = n;
                },
                None => {
                    proof {
                        lemma_digits_value_prefix(d, i + 1 - from as int);
                    }
                    return None;
                },
            },
            None => {
                proof {
                    lemma_digits_value_prefix(d, i + 1 - from as int);
                }
                return None;
            },
        }
        i = i + 1;
    }
    assert(d.subrange(0, to - from) =~= d);
    Some(v)
}

pub(crate) proof fn lemma_last_value_end(t: Seq<char>, k: nat, hi: int)
    ensures
        0 <= last_value_end(t, k, hi),
        last_value_end(t, k, hi) >= 1 ==> last_value_end(t, k, hi) <= hi && value_ends_at(
            t,
            k,
            last_value_end(t, k, hi),
        ),
    decreases hi,
{
    if hi >= 1 && k < 3 && !value_ends_at(t, k, hi) {
        lemma_last_value_end(t, k, hi - 1);
    }
}

proof fn lemma_run_end_shift(s: Seq<char>, a: int, i: int, cls: CharClass)
    requires
        0 <= a <= s.len(),
        0 <= i,
    ensures
        run_end(s.subrange(a, s.len() as int), i, cls) == run_end(s, a + i, cls) - a,
    decreases s.len() - a - i,
{
    if a + i < s.len() && in_class(s[a + i], cls) {
        lemma_run_end_shift(s, a, i + 1, cls);
    }
}

/// The characters of `s`.
pub(crate) fn chars_of(s: &str) -> (r: Vec<char>)
    ensures
        r@ == s@,
{
    let n = s.unicode_len();
    let mut v: Vec<char> = Vec::new();
    let mut i: usize = 0;
    while i < n
        invariant
            n == s@.len(),
            i <= n,
            v@ == s@.subrange(0, i as int),
        decreases n - i,
    {
        v.push(s.get_char(i));
        i = i + 1;
        assert(v@ =~= s@.subrange(0, i as int));
    }
    assert(v@ =~= s@);
    v
}

/// The text `line[from..to]`, counted in characters.
fn chars_between(line: &str, from: usize, to: usize) -> (r: String)
    requires
        from <= to <= line@.len(),
    ensures
        r@ == line@.subrange(from as int, to as int),
{
    line.substring_char(from, to).to_owned()
}

/// Whether `cs[pos..]` starts with label `k`.
fn label_at(cs: &Vec<char>, pos: usize, k: usize) -> (r: bool)
    requires
        pos <= cs@.len(),
    ensures
        r == starts_with(cs@.subrange(pos as int, cs@.len() as int), label(k as nat)),
{
    let ghost t = cs@.subrange(pos as int, cs@.len() as int);
    let lab = label_chars(k);
    if cs.len() - pos < lab.len() {
        return false;
    }
    let mut j: usize = 0;
    while j < lab.len()
        invariant
            t == cs@.subrange(pos as int, cs@.len() as int),
            pos + lab@.len() <= cs@.len(),
            cs@.len() <= usize::MAX,
            lab@ == label(k as nat),
            j <= lab@.len(),
            forall|q: int| 0 <= q < j ==> t[q] == lab@[q],
        decreases lab@.len() - j,
    {
        if cs[pos + j] != lab[j] {
            assert(t.subrange(0, lab@.len() as int)[j as int] != lab@[j as int]);
            return false;
        }
        j = j + 1;
    }
    assert(t.subrange(0, lab@.len() as int) =~= lab@);
    true
}

/// Where the value of field `k` that starts `cs[base..]` ends, taking as
/// much as it can, and where the next field's value starts.
fn take_value(cs: &Vec<char>, base: usize, k: usize) -> (r: (usize, usize))
    requires
        base <= cs@.len(),
        k < 3,
        fields_from(cs@.subrange(base as int, cs@.len() as int), k as nat),
    ensures
        ({
            let t = cs@.subrange(base as int, cs@.len() as int);
            &&& r.0 == last_value_end(t, k as nat, t.len() - 1)
            &&& r.0 >= 1
            &&& r.1 == base + r.0 + 1 + label((k + 1) as nat).len()
            &&& r.1 <= cs@.len()
            &&& t.subrange(0, r.0 as int) == cs@.subrange(base as int, base + r.0)
            &&& t.subrange(r.0 + 1 + label((k + 1) as nat).len() as int, t.len() as int)
                == cs@.subrange(r.1 as int, cs@.len() as int)
            &&& fields_from(cs@.subrange(r.1 as int, cs@.len() as int), (k + 1) as nat)
        }),
{
    let ghost t = cs@.subrange(base as int, cs@.len() as int);
    let n = cs.len();
    assert(t.len() >= 1);
    let e = find_last_value_end(cs, base, k, n - base - 1);
    proof {
        lemma_last_value_end(t, k as nat, t.len() - 1);
    }
    let next = base + e + 1 + label_chars(k + 1).len();
    assert(t.subrange(0, e as int) =~= cs@.subrange(base as int, base + e));
    assert(t.subrange(e + 1 + label((k + 1) as nat).len() as int, t.len() as int)
        =~= cs@.subrange(next as int, n as int));
    (e, next)
}

/// Live properties that follow the device path, which ends at `d`.
#[verifier::rlimit(30)]
fn parse_live(line: &str, cs: &Vec<char>, d: usize) -> (r: Option<AdbDeviceLiveProperties>)
    requires
        cs@ == line@,
        d <= cs@.len(),
    ensures
        match live_from(cs@.subrange(d as int, cs@.len() as int)) {
            Some(v) => r matches Some(l) && l.view() == v,
            None => r is None,
        },
{
    let n = cs.len();
    let ghost t = cs@.subrange(d as int, n as int);
    if d >= n || !char_is_space(cs[d]) {
        return None;
    }
    if !label_at(cs, d + 1, 0) {
        assert(t.subrange(1, t.len() as int) =~= cs@.subrange(d + 1, n as int));
        return None;
    }
    assert(t.subrange(1, t.len() as int) =~= cs@.subrange(d + 1, n as int));
    let product_at = d + 1 + label_chars(0).len();
    let ghost tp = t.subrange(1 + label(0).len() as int, t.len() as int);
    assert(tp =~= cs@.subrange(product_at as int, n as int));
    if !check_fields_from(cs, product_at, 0) {
        return None;
    }
    let (pe, pm) = take_value(cs, product_at, 0);
    let (me, pd) = take_value(cs, pm, 1);
    let (de, pt) = take_value(cs, pd, 2);
    let ghost tt = cs@.subrange(pt as int, n as int);
    let te = scan_run(cs, pt, &CharClass::Digit);
    proof {
        lemma_run_end_shift(cs@, pt as int, 0, CharClass::Digit);
        lemma_run_end_bounds(cs@, pt as int, CharClass::Digit);
        assert(tt.subrange(0, run_end(tt, 0, CharClass::Digit)) =~= cs@.subrange(
            pt as int,
            te as int,
        ));
    }
    let transport_id = match digits_to_usize(cs, pt, te) {
        Some(v) => v,
        None => {
            return None;
        },
    };
    Some(
        AdbDeviceLiveProperties {
            product: chars_between(line, product_at, product_at + pe),
            model: chars_between(line, pm, pm + me),
            device: chars_between(line, pd, pd + de),
            transport_id,
        },
    )
}

impl AdbDevice {
    /// Reads one enumeration line: `<serial> <state> <devpath>`, optionally
    /// followed by ` product:<p> model:<m> device:<d> transport_id:<n>`.
    /// A line of another shape gives `Error::Parse` with the line.
    pub fn parse(line: &str) -> (r: Result<AdbDevice, Error>)
        ensures
            parse_line(line@) matches Some(v) ==> (r matches Ok(d) && d.view() == v),
            parse_line(line@) is None ==> (r matches Err(Error::Parse(l)) && l@ == line@),
    {
        let cs = chars_of(line);
        let n = cs.len();
        let a = scan_run(&cs, 0, &CharClass::Name);
        proof {
            lemma_run_end_bounds(cs@, 0, CharClass::Name);
        }
        let b = scan_run(&cs, a, &CharClass::Space);
        proof {
            lemma_run_end_bounds(cs@, a as int, CharClass::Space);
        }
        let c = scan_run(&cs, b, &CharClass::Alpha);
        proof {
            lemma_run_end_bounds(cs@, b as int, CharClass::Alpha);
        }
        if !(0 < a && a < b && b < c && c < n && char_is_space(cs[c])) {
            return Err(Error::Parse(line.to_owned()));
        }
        let d = scan_run(&cs, c + 1, &CharClass::Path);
        proof {
            lemma_run_end_bounds(cs@, c + 1, CharClass::Path);
        }
        if d <= c + 1 {
            return Err(Error::Parse(line.to_owned()));
        }
        let live = parse_live(line, &cs, d);
        Ok(
            AdbDevice {
                connection_name: chars_between(line, 0, a),
                properties: AdbDeviceProperties {
                    connection_state: chars_between(line, b, c),
                    devpath: chars_between(line, c + 1, d),
                    live,
                },
            },
        )
    }
}

/// Value of a hexadecimal digit, or nothing.
pub open spec fn hex_value(x: u8) -> Option<nat> {
    if '0' as u8 <= x <= '9' as u8 {
        Some((x - '0' as u8) as nat)
    } else if 'a' as u8 <= x <= 'f' as u8 {
        Some((x - 'a' as u8 + 10) as nat)
    } else if 'A' as u8 <= x <= 'F' as u8 {
        Some((x - 'A' as u8 + 10) as nat)
    } else {
        None
    }
}

/// The value of the four hexadecimal digits `b`, or nothing where `b` is
/// anything else.
pub open spec fn hex_number(b: Seq<u8>) -> Option<nat> {
    if b.len() != 4 {
        None
    } else {
        match (hex_value(b[0]), hex_value(b[1]), hex_value(b[2]), hex_value(b[3])) {
            (Some(a), Some(c), Some(d), Some(e)) => Some(a * 4096 + c * 256 + d * 16 + e),
            _ => None,
        }
    }
}

/// `l` without one carriage return at its end.
pub open spec fn strip_cr(l: Seq<char>) -> Seq<char> {
    if l.len() > 0 && l.last() == '\r' {
        l.drop_last()
    } else {
        l
    }
}

/// `l`, as a list of one line, unless it is empty.
pub open spec fn nonempty_line(l: Seq<char>) -> Seq<Seq<char>> {
    if strip_cr(l).len() == 0 {
        seq![]
    } else {
        seq![strip_cr(l)]
    }
}

/// The non-empty lines of `t` from the line that starts at `start`, the
/// scan having reached `i`: lines end at `\n`, and a `\r` before it is
/// dropped.
pub open spec fn lines_from(t: Seq<char>, start: int, i: int) -> Seq<Seq<char>>
    decreases t.len() - i,
{
    if i >= t.len() {
        if start < t.len() {
            nonempty_line(t.subrange(start, t.len() as int))
        } else {
            seq![]
        }
    } else if t[i] == '\n' {
        nonempty_line(t.subrange(start, i)) + lines_from(t, i + 1, i + 1)
    } else {
        lines_from(t, start, i + 1)
    }
}

/// The non-empty lines of `t`.
pub open spec fn text_lines(t: Seq<char>) -> Seq<Seq<char>> {
    lines_from(t, 0, 0)
}

/// Whether `r` is what `AdbDevice::parse` gives on the line `l`.
pub open spec fn parsed_as(r: Result<AdbDevice, Error>, l: Seq<char>) -> bool {
    match parse_line(l) {
        Some(v) => r matches Ok(d) && d.view() == v,
        None => r matches Err(Error::Parse(s)) && s@ == l,
    }
}

/// What one call of the tracking decoder does on a buffer.
pub enum TrackStep {
    /// No whole frame is buffered yet.
    NeedMore,
    /// The frame cannot be read; nothing is consumed.
    Failed(TrackDevicesDecodeError),
    /// A frame of `len` bytes whose payload holds `lines`.
    Frame { len: int, lines: Seq<Seq<char>> },
}

/// The step that the tracking decoder takes on the buffered bytes `b`: a
/// frame is four hexadecimal digits giving the payload's length, then the
/// payload, lines of text.
pub open spec fn track_step(b: Seq<u8>) -> TrackStep {
    if b.len() < 4 {
        TrackStep::NeedMore
    } else {
        match hex_number(b.subrange(0, 4)) {
            None => TrackStep::Failed(
                if valid_utf8(b.subrange(0, 4)) {
                    TrackDevicesDecodeError::ParseIntError
                } else {
                    TrackDevicesDecodeError::Utf8Error
                },
            ),
            Some(l) => if b.len() < 4 + l {
                TrackStep::NeedMore
            } else if !valid_utf8(b.subrange(4, 4 + l as int)) {
                TrackStep::Failed(TrackDevicesDecodeError::Utf8Error)
            } else {
                TrackStep::Frame {
                    len: 4 + l as int,
                    lines: text_lines(decode_utf8(b.subrange(4, 4 + l as int))),
                }
            },
        }
    }
}

/// Whether the decoder's result `r` and the buffer left after the call,
/// `after`, are those of `step` on `before`.
pub open spec fn track_outcome(
    step: TrackStep,
    before: Seq<u8>,
    after: Seq<u8>,
    r: Result<Option<Vec<Result<AdbDevice, Error>>>, TrackDevicesDecodeError>,
) -> bool {
    match step {
        TrackStep::NeedMore => r is Ok && r->Ok_0 is None && after == before,
        TrackStep::Failed(e) => r is Err && r->Err_0 == e && after == before,
        TrackStep::Frame { len, lines } => {
            &&& after == before.subrange(len, before.len() as int)
            &&& r is Ok && r->Ok_0 is Some
            &&& r->Ok_0->0@.len() == lines.len()
            &&& forall|i: int|
                0 <= i < lines.len() ==> parsed_as(#[trigger] r->Ok_0->0@[i], lines[i])
        },
    }
}

fn hex_digit(x: u8) -> (r: Option<u16>)
    ensures
        match hex_value(x) {
            Some(v) => r == Some(v as u16),
            None => r is None,
        },
{
    if 48 <= x && x <= 57 {
        Some((x - 48) as u16)
    } else if 97 <= x && x <= 102 {
        Some((x - 87) as u16)
    } else if 65 <= x && x <= 70 {
        Some((x - 55) as u16)
    } else {
        None
    }
}

/// The length field at the start of `b`.
fn read_length_field(b: &Vec<u8>) -> (r: Option<usize>)
    requires
        b@.len() >= 4,
    ensures
        match hex_number(b@.subrange(0, 4)) {
            Some(v) => v < 0x10000 && r == Some(v as usize),
            None => r is None,
        },
{
    let d0 = hex_digit(b[0]);
    let d1 = hex_digit(b[1]);
    let d2 = hex_digit(b[2]);
    let d3 = hex_digit(b[3]);
    match (d0, d1, d2, d3) {
        (Some(v0), Some(v1), Some(v2), Some(v3)) => Some(
            v0 as usize * 4096 + v1 as usize * 256 + v2 as usize * 16 + v3 as usize,
        ),
        _ => None,
    }
}

/// Parses `t[start..end]`, a line, and adds the result to `out` unless the
/// line is empty.
fn push_line(
    text: &str,
    cs: &Vec<char>,
    start: usize,
    end: usize,
    out: &mut Vec<Result<AdbDevice, Error>>,
)
    requires
        cs@ == text@,
        start <= end <= cs@.len(),
    ensures
        final(out)@.len() == old(out)@.len() + nonempty_line(
            cs@.subrange(start as int, end as int),
        ).len(),
        forall|i: int| 0 <= i < old(out)@.len() ==> #[trigger] final(out)@[i] == old(out)@[i],
        forall|i: int|
            0 <= i < nonempty_line(cs@.subrange(start as int, end as int)).len() ==> parsed_as(
                #[trigger] final(out)@[old(out)@.len() + i],
                nonempty_line(cs@.subrange(start as int, end as int))[i],
            ),
{
    let ghost l = cs@.subrange(start as int, end as int);
    let mut e = end;
    if e > start && cs[e - 1] == '\r' {
        e = e - 1;
        assert(l.drop_last() =~= cs@.subrange(start as int, e as int));
    }
    assert(strip_cr(l) =~= cs@.subrange(start as int, e as int));
    if e > start {
        let line = chars_between(text, start, e);
        out.push(AdbDevice::parse(line.as_str()));
    }
}

/// Parses each non-empty line of `text`.
fn parse_lines(text: &str) -> (r: Vec<Result<AdbDevice, Error>>)
    ensures
        r@.len() == text_lines(text@).len(),
        forall|i: int|
            0 <= i < text_lines(text@).len() ==> parsed_as(#[trigger] r@[i], text_lines(text@)[i]),
{
    let cs = chars_of(text);
    let ghost t = cs@;
    let n = cs.len();
    let mut out: Vec<Result<AdbDevice, Error>> = Vec::new();
    let ghost mut done: Seq<Seq<char>> = seq![];
    let mut start: usize = 0;
    let mut i: usize = 0;
    while i < n
        invariant
            t == cs@,
            t == text@,
            n == t.len(),
            start <= i <= n,
            done + lines_from(t, start as int, i as int) == text_lines(t),
            out@.len() == done.len(),
            forall|q: int| 0 <= q < done.len() ==> parsed_as(#[trigger] out@[q], done[q]),
        decreases n - i,
    {
        if cs[i] == '\n' {
            let ghost before = out@;
            let ghost piece = nonempty_line(t.subrange(start as int, i as int));
            push_line(text, &cs, start, i, &mut out);
            proof {
                assert(done + (piece + lines_from(t, i + 1, i + 1)) =~= (done + piece)
                    + lines_from(t, i + 1, i + 1));
                assert forall|q: int| 0 <= q < done.len() + piece.len() implies parsed_as(
                    #[trigger] out@[q],
                    (done + piece)[q],
                ) by {
                    if q < done.len() {
                        assert(out@[q] == before[q]);
                    } else {
                        assert(out@[done.len() + (q - done.len())] == out@[q]);
                    }
                }
                done = done + piece;
            }
            start = i + 1;
        }
        i = i + 1;
    }
    if start < n {
        let ghost before = out@;
        let ghost piece = nonempty_line(t.subrange(start as int, n as int));
        push_line(text, &cs, start, n, &mut out);
        proof {
            assert forall|q: int| 0 <= q < done.len() + piece.len() implies parsed_as(
                #[trigger] out@[q],
                (done + piece)[q],
            ) by {
                if q < done.len() {
                    assert(out@[q] == before[q]);
                } else {
                    assert(out@[done.len() + (q - done.len())] == out@[q]);
                }
            }
            done = done + piece;
        }
    } else {
        assert(done + seq![] =~= done);
    }
    out
}

/// Decoder of the device-tracking feed: frames of a four-digit hexadecimal
/// length and that many bytes of enumeration lines.
pub struct TrackDevicesDecoder;

impl TrackDevicesDecoder {
    pub fn new() -> (r: Self) {
        TrackDevicesDecoder
    }

    /// Decodes the frame at the start of `src` and removes it from `src`.
    ///
    /// Returns `Ok(None)` and leaves `src` as it was while no whole frame is
    /// buffered. A length field that is not hexadecimal, or a payload that is
    /// not UTF-8, gives its error and consumes nothing. Otherwise the frame is
    /// consumed and each non-empty line of it parsed.
    pub fn decode(&mut self, src: &mut Vec<u8>) -> (r: Result<
        Option<Vec<Result<AdbDevice, Error>>>,
        TrackDevicesDecodeError,
    >)
        ensures
            track_outcome(track_step(old(src)@), old(src)@, final(src)@, r),
    {
        if src.len() < 4 {
            src.reserve(256);
            return Ok(None);
        }
        let len = match read_length_field(src) {
            Some(l) => l,
            None => {
                let head = slice_subrange(src.as_slice(), 0, 4);
                if utf8_str(head).is_some() {
                    return Err(TrackDevicesDecodeError::ParseIntError);
                } else {
                    return Err(TrackDevicesDecodeError::Utf8Error);
                }
            },
        };
        if src.len() - 4 < len {
            src.reserve(4 + len - src.len());
            return Ok(None);
        }
        let devices = match utf8_str(slice_subrange(src.as_slice(), 4, 4 + len)) {
            Some(text) => parse_lines(text),
            None => {
                return Err(TrackDevicesDecodeError::Utf8Error);
            },
        };
        let rest = src.split_off(4 + len);
        *src = rest;
        Ok(Some(devices))
    }
}

/// Decoding is incremental: on every proper prefix of a whole frame the
/// decoder asks for more bytes and consumes nothing, and with more bytes
/// after the frame it decodes the frame as it does alone. So a frame fed in
/// one piece and one fed byte by byte give the same items.
pub proof fn lemma_track_incremental(frame: Seq<u8>, rest: Seq<u8>, k: int)
    requires
        track_step(frame) matches TrackStep::Frame { len, .. } && len == frame.len(),
        0 <= k < frame.len(),
    ensures
        track_step(frame.subrange(0, k)) == TrackStep::NeedMore,
        track_step(frame + rest) == track_step(frame),
{
    let b = frame + rest;
    assert(b.subrange(0, 4) =~= frame.subrange(0, 4));
    let l = hex_number(frame.subrange(0, 4))->0;
    assert(b.subrange(4, 4 + l as int) =~= frame.subrange(4, 4 + l as int));
    if k >= 4 {
        assert(frame.subrange(0, k).subrange(0, 4) =~= frame.subrange(0, 4));
    }
}

/// The decimal digit `d`.
pub open spec fn digit_char(d: nat) -> char {
    seq!['0', '1', '2', '3', '4', '5', '6', '7', '8', '9'][d as int]
}

/// `n` in decimal, without leading zeros.
pub open spec fn decimal_chars(n: nat) -> Seq<char>
    decreases n,
{
    if n < 10 {
        seq![digit_char(n)]
    } else {
        decimal_chars(n / 10).push(digit_char(n % 10))
    }
}

/// The enumeration line of the device `v`, in its long form where it has
/// live properties, with single spaces between fields.
pub open spec fn device_line(v: DeviceView) -> Seq<char> {
    let head = v.connection_name + seq![' '] + v.properties.connection_state + seq![' ']
        + v.properties.devpath;
    match v.properties.live {
        None => head,
        Some(l) => head + seq![' '] + label(0) + l.product + seq![' '] + label(1) + l.model
            + seq![' '] + label(2) + l.device + seq![' '] + label(3) + decimal_chars(
            l.transport_id,
        ),
    }
}

fn digit_str(d: usize) -> (r: &'static str)
    requires
        d < 10,
    ensures
        r@ == seq![digit_char(d as nat)],
{
    proof {
        reveal_strlit("0");
        reveal_strlit("1");
        reveal_strlit("2");
        reveal_strlit("3");
        reveal_strlit("4");
        reveal_strlit("5");
        reveal_strlit("6");
        reveal_strlit("7");
        reveal_strlit("8");
        reveal_strlit("9");
    }
    let r = if d == 0 {
        "0"
    } else if d == 1 {
        "1"
    } else if d == 2 {
        "2"
    } else if d == 3 {
        "3"
    } else if d == 4 {
        "4"
    } else if d == 5 {
        "5"
    } else if d == 6 {
        "6"
    } else if d == 7 {
        "7"
    } else if d == 8 {
        "8"
    } else {
        "9"
    };
    assert(r@ =~= seq![digit_char(d as nat)]);
    r
}

/// Appends `n` in decimal to `s`.
fn push_decimal(s: &mut String, n: usize)
    ensures
        final(s)@ == old(s)@ + decimal_chars(n as nat),
    decreases n,
{
    if n >= 10 {
        push_decimal(s, n / 10);
    }
    s.append(digit_str(n % 10));
    assert(final(s)@ =~= old(s)@ + decimal_chars(n as nat));
}

impl AdbDevice {
    /// The enumeration line of this device, in its long form where it has
    /// live properties.
    pub fn to_line(&self) -> (r: String)
        ensures
            r@ == device_line(self.view()),
    {
        proof {
            reveal_strlit(" ");
            reveal_strlit(" product:");
            reveal_strlit(" model:");
            reveal_strlit(" device:");
            reveal_strlit(" transport_id:");
        }
        let mut s = String::new();
        s.append(self.connection_name.as_str());
        s.append(" ");
        s.append(self.properties.connection_state.as_str());
        s.append(" ");
        s.append(self.properties.devpath.as_str());
        let ghost head = s@;
        match &self.properties.live {
            None => {},
            Some(l) => {
                s.append(" product:");
                s.append(l.product.as_str());
                s.append(" model:");
                s.append(l.model.as_str());
                s.append(" device:");
                s.append(l.device.as_str());
                s.append(" transport_id:");
                push_decimal(&mut s, l.transport_id);
                assert(" product:"@ =~= seq![' '] + label(0));
                assert(" model:"@ =~= seq![' '] + label(1));
                assert(" device:"@ =~= seq![' '] + label(2));
                assert(" transport_id:"@ =~= seq![' '] + label(3));
            },
        }
        assert(s@ =~= device_line(self.view()));
        s
    }
}

} // verus!
