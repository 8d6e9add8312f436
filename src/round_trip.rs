//! Enumeration lines made of fields, and parsed lines written back out.
use vstd::prelude::*;

use crate::devices::{
    decimal_chars, device_line, digit_char, digits_value, fields_from, in_class, label,
    last_value_end, live_from, parse_line, run_end, starts_with, value_ends_at, CharClass,
    lemma_last_value_end, lemma_run_end_bounds, DeviceView, LiveView,
};
use crate::strings::is_space;

verus! {

/// `x` stands for `y` up to `z`: equal characters, or white space other than
/// a newline in both; from `z` on `x` holds only digits, and where it has
/// any, so does `y` at `z`.
spec fn similar(x: Seq<char>, y: Seq<char>, z: int) -> bool {
    &&& 0 <= z <= x.len()
    &&& z <= y.len()
    &&& forall|i: int|
        0 <= i < z ==> #[trigger] x[i] == y[i] || (is_space(x[i]) && is_space(y[i]) && x[i]
            != '\n' && y[i] != '\n')
    &&& forall|i: int| z <= i < x.len() ==> in_class(#[trigger] x[i], CharClass::Digit)
    &&& z < x.len() ==> z < y.len() && in_class(y[z], CharClass::Digit)
}

proof fn lemma_label_chars(k: nat)
    requires
        1 <= k <= 3,
    ensures
        forall|q: int|
            0 <= q < label(k).len() ==> !in_class(#[trigger] label(k)[q], CharClass::Digit)
                && !is_space(label(k)[q]) && label(k)[q] != '\n',
{
}

proof fn lemma_run_end_exact(s: Seq<char>, i: int, j: int, cls: CharClass)
    requires
        0 <= i <= j <= s.len(),
        forall|k: int| i <= k < j ==> in_class(#[trigger] s[k], cls),
        j == s.len() || !in_class(s[j], cls),
    ensures
        run_end(s, i, cls) == j,
    decreases j - i,
{
    if i < j {
        lemma_run_end_exact(s, i + 1, j, cls);
    }
}

proof fn lemma_last_value_end_at_least(t: Seq<char>, k: nat, e: int, hi: int)
    requires
        value_ends_at(t, k, e),
        e <= hi,
    ensures
        last_value_end(t, k, hi) >= e,
    decreases hi,
{
    if hi > e && !value_ends_at(t, k, hi) {
        lemma_last_value_end_at_least(t, k, e, hi - 1);
    }
}

proof fn lemma_last_value_end_max(t: Seq<char>, k: nat, hi: int, e: int)
    requires
        last_value_end(t, k, hi) < e <= hi,
    ensures
        !value_ends_at(t, k, e),
    decreases hi,
{
    if hi >= 1 && k < 3 && !value_ends_at(t, k, hi) && e < hi {
        lemma_last_value_end_max(t, k, hi - 1, e);
    }
}

proof fn lemma_last_value_end_is(t: Seq<char>, k: nat, e: int, hi: int)
    requires
        value_ends_at(t, k, e),
        e <= hi,
        forall|f: int| e < f <= hi ==> !#[trigger] value_ends_at(t, k, f),
    ensures
        last_value_end(t, k, hi) == e,
    decreases hi,
{
    if hi > e {
        assert(!value_ends_at(t, k, hi));
        lemma_last_value_end_is(t, k, e, hi - 1);
    }
}

proof fn lemma_similar_value_end(x: Seq<char>, y: Seq<char>, z: int, k: nat, e: int)
    requires
        similar(x, y, z),
        value_ends_at(x, k, e),
    ensures
        value_ends_at(y, k, e),
    decreases 3 - k, 0int,
{
    let lab = label(k + 1);
    lemma_label_chars(k + 1);
    assert(e < z) by {
        if e >= z {
            assert(in_class(x[e], CharClass::Digit));
        }
    }
    let m = e + 1 + lab.len() as int;
    assert forall|q: int| 0 <= q < lab.len() implies e + 1 + q < z && y[e + 1 + q] == lab[q] by {
        assert(x.subrange(e + 1, x.len() as int).subrange(0, lab.len() as int)[q] == lab[q]);
        assert(x[e + 1 + q] == lab[q]);
        if e + 1 + q >= z {
            assert(in_class(x[e + 1 + q], CharClass::Digit));
        }
    }
    assert(y.subrange(e + 1, y.len() as int).subrange(0, lab.len() as int) =~= lab);
    assert forall|i: int| 0 <= i < e implies y[i] != '\n' by {
        assert(x[i] != '\n');
    }
    let x2 = x.subrange(m, x.len() as int);
    let y2 = y.subrange(m, y.len() as int);
    assert(similar(x2, y2, z - m)) by {
        assert forall|i: int| 0 <= i < z - m implies #[trigger] x2[i] == y2[i] || (is_space(x2[i])
            && is_space(y2[i]) && x2[i] != '\n' && y2[i] != '\n') by {
            assert(x2[i] == x[m + i] && y2[i] == y[m + i]);
        }
        assert forall|i: int| z - m <= i < x2.len() implies in_class(
            #[trigger] x2[i],
            CharClass::Digit,
        ) by {
            assert(x2[i] == x[m + i]);
        }
    }
    lemma_similar_fields(x2, y2, z - m, k + 1);
}

proof fn lemma_similar_fields(x: Seq<char>, y: Seq<char>, z: int, k: nat)
    requires
        similar(x, y, z),
        fields_from(x, k),
    ensures
        fields_from(y, k),
    decreases 3 - k, 1int,
{
    if k >= 3 {
        if 0 < z {
            assert(x[0] == y[0] || (is_space(x[0]) && is_space(y[0])));
        }
    } else {
        let e = last_value_end(x, k, x.len() - 1);
        lemma_last_value_end(x, k, x.len() - 1);
        lemma_similar_value_end(x, y, z, k, e);
        lemma_last_value_end_at_least(y, k, e, y.len() - 1);
    }
}

/// `similar` carries over a common start made of equal characters or of
/// white space other than newlines.
proof fn lemma_similar_prepend(u2: Seq<char>, u: Seq<char>, x: Seq<char>, y: Seq<char>, z: int)
    requires
        u2.len() == u.len(),
        forall|i: int|
            0 <= i < u.len() ==> #[trigger] u2[i] == u[i] || (is_space(u2[i]) && is_space(u[i])
                && u2[i] != '\n' && u[i] != '\n'),
        similar(x, y, z),
    ensures
        similar(u2 + x, u + y, u.len() + z),
{
    let a = u2 + x;
    let b = u + y;
    let n = u.len() as int;
    assert forall|i: int| 0 <= i < n + z implies #[trigger] a[i] == b[i] || (is_space(a[i])
        && is_space(b[i]) && a[i] != '\n' && b[i] != '\n') by {
        if i < n {
            assert(a[i] == u2[i] && b[i] == u[i]);
        } else {
            assert(a[i] == x[i - n] && b[i] == y[i - n]);
        }
    }
    assert forall|i: int| n + z <= i < a.len() implies in_class(#[trigger] a[i], CharClass::Digit) by {
        assert(a[i] == x[i - n]);
    }
    if n + z < a.len() {
        assert(b[n + z] == y[z]);
    }
}

proof fn lemma_digit_char(d: nat)
    requires
        d < 10,
    ensures
        digit_char(d) as u32 == d + 48,
        in_class(digit_char(d), CharClass::Digit),
{
    if d == 0 {
        assert(digit_char(0) == '0');
    } else if d == 1 {
        assert(digit_char(1) == '1');
    } else if d == 2 {
        assert(digit_char(2) == '2');
    } else if d == 3 {
        assert(digit_char(3) == '3');
    } else if d == 4 {
        assert(digit_char(4) == '4');
    } else if d == 5 {
        assert(digit_char(5) == '5');
    } else if d == 6 {
        assert(digit_char(6) == '6');
    } else if d == 7 {
        assert(digit_char(7) == '7');
    } else if d == 8 {
        assert(digit_char(8) == '8');
    } else {
        assert(digit_char(9) == '9');
    }
}

proof fn lemma_decimal_chars(n: nat)
    ensures
        decimal_chars(n).len() >= 1,
        forall|i: int|
            0 <= i < decimal_chars(n).len() ==> in_class(
                #[trigger] decimal_chars(n)[i],
                CharClass::Digit,
            ),
        digits_value(decimal_chars(n)) == n,
    decreases n,
{
    lemma_digit_char(n % 10);
    if n < 10 {
        let s = seq![digit_char(n)];
        assert(s.drop_last() =~= Seq::<char>::empty());
        assert(n % 10 == n);
        assert(s.last() == digit_char(n));
        assert(digits_value(s.drop_last()) == 0);
        assert(digits_value(s) == (digit_char(n) as u32 - '0' as u32) as nat);
    } else {
        lemma_decimal_chars(n / 10);
        let s = decimal_chars(n);
        assert(s.drop_last() =~= decimal_chars(n / 10));
        assert(s.last() == digit_char(n % 10));
        assert((n / 10) * 10 + n % 10 == n) by (nonlinear_arith);
    }
}

/// The text after the device path that `to_line` writes for `l`.
spec fn live_text(l: LiveView) -> Seq<char> {
    seq![' '] + label(0) + l.product + seq![' '] + label(1) + l.model + seq![' '] + label(2)
        + l.device + seq![' '] + label(3) + decimal_chars(l.transport_id)
}

/// One field of the long form written back: `value`, a space and the next
/// label, then `rest`, next to `t`, where the field was read from.
proof fn lemma_field_written(
    t: Seq<char>,
    k: nat,
    value: Seq<char>,
    rest: Seq<char>,
    rest_old: Seq<char>,
    z: int,
)
    requires
        k < 3,
        t.len() >= 1,
        last_value_end(t, k, t.len() - 1) >= 1,
        value == t.subrange(0, last_value_end(t, k, t.len() - 1)),
        rest_old == t.subrange(
            last_value_end(t, k, t.len() - 1) + 1 + label(k + 1).len(),
            t.len() as int,
        ),
        forall|i: int| 0 <= i < t.len() ==> t[i] != '\n',
        fields_from(rest, k + 1),
        similar(rest, rest_old, z),
    ensures
        ({
            let w = value + seq![' '] + label(k + 1) + rest;
            &&& last_value_end(w, k, w.len() - 1) == value.len()
            &&& similar(w, t, value.len() + 1 + label(k + 1).len() + z)
            &&& w.subrange(0, value.len() as int) == value
            &&& w.subrange(value.len() + 1 + label(k + 1).len() as int, w.len() as int) == rest
            &&& fields_from(w, k)
        }),
{
    let e = last_value_end(t, k, t.len() - 1);
    lemma_last_value_end(t, k, t.len() - 1);
    let lab = label(k + 1);
    let w = value + seq![' '] + lab + rest;
    let m = e + 1 + lab.len() as int;
    assert(w.subrange(0, e) =~= value);
    assert(w.subrange(m, w.len() as int) =~= rest);
    assert(w.subrange(e + 1, w.len() as int).subrange(0, lab.len() as int) =~= lab);
    assert forall|i: int| 0 <= i < e implies w[i] != '\n' by {
        assert(w[i] == t[i]);
    }
    assert(w[e] == ' ');
    assert(value_ends_at(w, k, e));
    let u = t.subrange(0, m);
    let u2 = value + seq![' '] + lab;
    assert forall|i: int| 0 <= i < u.len() implies #[trigger] u2[i] == u[i] || (is_space(u2[i])
        && is_space(u[i]) && u2[i] != '\n' && u[i] != '\n') by {
        if i < e {
            assert(u2[i] == t[i]);
        } else if i == e {
            assert(u2[i] == ' ');
        } else {
            assert(t.subrange(e + 1, t.len() as int).subrange(0, lab.len() as int)[i - e - 1]
                == lab[i - e - 1]);
            assert(u2[i] == lab[i - e - 1]);
        }
    }
    assert(t =~= u + rest_old);
    assert(w =~= u2 + rest);
    lemma_similar_prepend(u2, u, rest, rest_old, z);
    assert forall|f: int| e < f <= w.len() - 1 implies !#[trigger] value_ends_at(w, k, f) by {
        if value_ends_at(w, k, f) {
            lemma_similar_value_end(w, t, m + z, k, f);
            lemma_last_value_end_max(t, k, t.len() - 1, f);
        }
    }
    lemma_last_value_end_is(w, k, e, w.len() - 1);
}

#[verifier::rlimit(50)]
proof fn lemma_live_round_trip(t: Seq<char>)
    requires
        live_from(t) is Some,
        forall|i: int| 0 <= i < t.len() ==> t[i] != '\n',
    ensures
        live_from(live_text(live_from(t)->0)) == live_from(t),
{
    let l = live_from(t)->0;
    let tp = t.subrange(1 + label(0).len() as int, t.len() as int);
    assert forall|i: int| 0 <= i < tp.len() implies tp[i] != '\n' by {
        assert(tp[i] == t[9 + i]);
    }
    let pe = last_value_end(tp, 0, tp.len() - 1);
    lemma_last_value_end(tp, 0, tp.len() - 1);
    let tm = tp.subrange(pe + 1 + label(1).len() as int, tp.len() as int);
    assert forall|i: int| 0 <= i < tm.len() implies tm[i] != '\n' by {
        assert(tm[i] == tp[pe + 7 + i]);
    }
    let me = last_value_end(tm, 1, tm.len() - 1);
    lemma_last_value_end(tm, 1, tm.len() - 1);
    let td = tm.subrange(me + 1 + label(2).len() as int, tm.len() as int);
    assert forall|i: int| 0 <= i < td.len() implies td[i] != '\n' by {
        assert(td[i] == tm[me + 8 + i]);
    }
    let de = last_value_end(td, 2, td.len() - 1);
    lemma_last_value_end(td, 2, td.len() - 1);
    let tt = td.subrange(de + 1 + label(3).len() as int, td.len() as int);
    let id = l.transport_id;
    let t2 = decimal_chars(id);
    lemma_decimal_chars(id);
    assert(similar(t2, tt, 0));
    let td2 = l.device + seq![' '] + label(3) + t2;
    lemma_field_written(td, 2, l.device, t2, tt, 0);
    let tm2 = l.model + seq![' '] + label(2) + td2;
    lemma_field_written(tm, 1, l.model, td2, td, de + 14);
    let tp2 = l.product + seq![' '] + label(1) + tm2;
    lemma_field_written(tp, 0, l.product, tm2, tm, me + 8 + de + 14);
    let w = seq![' '] + label(0) + tp2;
    assert(w =~= live_text(l));
    assert(w.subrange(1, w.len() as int).subrange(0, label(0).len() as int) =~= label(0));
    assert(w.subrange(1 + label(0).len() as int, w.len() as int) =~= tp2);
    lemma_run_end_exact(t2, 0, t2.len() as int, CharClass::Digit);
    assert(t2.subrange(0, t2.len() as int) =~= t2);
}

/// Writing a parsed device back as a line, with `AdbDevice::to_line`, and
/// parsing that line gives the same device: every field survives; only the
/// white space between fields and leading zeros of the transport id may
/// change. Lines here hold no newline, as lines of text do not.
#[verifier::rlimit(100)]
pub proof fn lemma_round_trip(line: Seq<char>)
    requires
        parse_line(line) is Some,
        forall|i: int| 0 <= i < line.len() ==> line[i] != '\n',
    ensures
        parse_line(device_line(parse_line(line)->0)) == parse_line(line),
{
    let v = parse_line(line)->0;
    let a = run_end(line, 0, CharClass::Name);
    let b = run_end(line, a, CharClass::Space);
    let c = run_end(line, b, CharClass::Alpha);
    let d = run_end(line, c + 1, CharClass::Path);
    lemma_run_end_bounds(line, 0, CharClass::Name);
    lemma_run_end_bounds(line, a, CharClass::Space);
    lemma_run_end_bounds(line, b, CharClass::Alpha);
    lemma_run_end_bounds(line, c + 1, CharClass::Path);
    let name = v.connection_name;
    let state = v.properties.connection_state;
    let path = v.properties.devpath;
    let tail = match v.properties.live {
        None => Seq::<char>::empty(),
        Some(l) => live_text(l),
    };
    let s = device_line(v);
    assert(s =~= name + seq![' '] + state + seq![' '] + path + tail);
    let a2 = name.len() as int;
    let c2 = a2 + 1 + state.len();
    let d2 = c2 + 1 + path.len();
    assert forall|k: int| 0 <= k < a2 implies in_class(#[trigger] s[k], CharClass::Name) by {
        assert(s[k] == line[k]);
    }
    lemma_run_end_exact(s, 0, a2, CharClass::Name);
    assert(s[a2 + 1] == line[b]);
    lemma_run_end_exact(s, a2, a2 + 1, CharClass::Space);
    assert forall|k: int| a2 + 1 <= k < c2 implies in_class(#[trigger] s[k], CharClass::Alpha) by {
        assert(s[k] == line[b + (k - a2 - 1)]);
    }
    lemma_run_end_exact(s, a2 + 1, c2, CharClass::Alpha);
    assert forall|k: int| c2 + 1 <= k < d2 implies in_class(#[trigger] s[k], CharClass::Path) by {
        assert(s[k] == line[c + 1 + (k - c2 - 1)]);
    }
    if v.properties.live is Some {
        assert(s[d2] == ' ');
    }
    lemma_run_end_exact(s, c2 + 1, d2, CharClass::Path);
    assert(s.subrange(0, a2) =~= name);
    assert(s.subrange(a2 + 1, c2) =~= state);
    assert(s.subrange(c2 + 1, d2) =~= path);
    assert(s.subrange(d2, s.len() as int) =~= tail);
    let rest = line.subrange(d, line.len() as int);
    if v.properties.live is Some {
        assert forall|i: int| 0 <= i < rest.len() implies rest[i] != '\n' by {
            assert(rest[i] == line[d + i]);
        }
        lemma_live_round_trip(rest);
    }
}

/// Whether `c` starts one of the labels after label `k + 1`.
spec fn starts_later_label(c: char, k: nat) -> bool {
    (k + 2 <= 3 && c == label(k + 2)[0]) || (k + 3 <= 3 && c == label(k + 3)[0])
}

/// One field of the long form, `value` with no white space in it, then a
/// space, the next label and `rest`: the value is read back whole, since no
/// white space in `rest` comes before that same label.
proof fn lemma_value_read_back(value: Seq<char>, k: nat, rest: Seq<char>)
    requires
        k < 3,
        value.len() >= 1,
        forall|i: int| 0 <= i < value.len() ==> !is_space(#[trigger] value[i]),
        fields_from(rest, k + 1),
        forall|j: int|
            0 <= j < rest.len() && is_space(#[trigger] rest[j]) ==> j + 1 < rest.len()
                && starts_later_label(rest[j + 1], k),
    ensures
        ({
            let w = value + seq![' '] + label(k + 1) + rest;
            &&& last_value_end(w, k, w.len() - 1) == value.len()
            &&& fields_from(w, k)
            &&& w.subrange(0, value.len() as int) == value
            &&& w.subrange(value.len() + 1 + label(k + 1).len() as int, w.len() as int) == rest
            &&& forall|j: int|
                0 <= j < w.len() && is_space(#[trigger] w[j]) ==> j + 1 < w.len() && (w[j + 1]
                    == label(k + 1)[0] || starts_later_label(w[j + 1], k))
        }),
{
    let lab = label(k + 1);
    lemma_label_chars(k + 1);
    let w = value + seq![' '] + lab + rest;
    let e = value.len() as int;
    let m = e + 1 + lab.len();
    assert(w.subrange(0, e) =~= value);
    assert(w.subrange(m, w.len() as int) =~= rest);
    assert(w.subrange(e + 1, w.len() as int).subrange(0, lab.len() as int) =~= lab);
    assert forall|i: int| 0 <= i < e implies w[i] != '\n' by {
        assert(w[i] == value[i]);
        assert(is_space('\n'));
    }
    assert(w[e] == ' ');
    assert(value_ends_at(w, k, e));
    assert forall|f: int| e < f <= w.len() - 1 implies !#[trigger] value_ends_at(w, k, f) by {
        if value_ends_at(w, k, f) {
            if f < m {
                assert(w[f] == lab[f - e - 1]);
            } else {
                let j = f - m;
                assert(w[f] == rest[j]);
                assert(w.subrange(f + 1, w.len() as int).subrange(0, lab.len() as int)[0]
                    == lab[0]);
                assert(w[f + 1] == rest[j + 1]);
                assert(label(1)[0] == 'm' && label(2)[0] == 'd' && label(3)[0] == 't');
            }
        }
    }
    lemma_last_value_end_is(w, k, e, w.len() - 1);
    assert forall|j: int| 0 <= j < w.len() && is_space(#[trigger] w[j]) implies j + 1 < w.len()
        && (w[j + 1] == lab[0] || starts_later_label(w[j + 1], k)) by {
        if j < e {
            assert(w[j] == value[j]);
        } else if j == e {
            assert(w[j + 1] == lab[0]);
        } else if j < m {
            assert(w[j] == lab[j - e - 1]);
        } else {
            assert(w[j] == rest[j - m]);
            assert(w[j + 1] == rest[j - m + 1]);
        }
    }
}

/// The enumeration line made of the fields of `v`, in the long form where
/// `v` has live properties, with `id_text` as the transport id's digits.
pub open spec fn fields_line(v: DeviceView, id_text: Seq<char>) -> Seq<char> {
    let head = v.connection_name + seq![' '] + v.properties.connection_state + seq![' ']
        + v.properties.devpath;
    match v.properties.live {
        None => head,
        Some(l) => head + seq![' '] + label(0) + l.product + seq![' '] + label(1) + l.model
            + seq![' '] + label(2) + l.device + seq![' '] + label(3) + id_text,
    }
}

/// A line made of the grammar's fields parses back to exactly those fields:
/// a serial of word and punctuation characters, a state of letters and a
/// device path of letters, digits, `-` and `:`, each non-empty; where the
/// long form is present, product, model and device without white space and
/// decimal digits whose value fits in a `usize`. Without the long form the
/// live properties are nothing.
#[verifier::rlimit(100)]
pub proof fn lemma_line_from_fields(v: DeviceView, id_text: Seq<char>)
    requires
        v.connection_name.len() >= 1,
        forall|i: int|
            0 <= i < v.connection_name.len() ==> in_class(
                #[trigger] v.connection_name[i],
                CharClass::Name,
            ),
        v.properties.connection_state.len() >= 1,
        forall|i: int|
            0 <= i < v.properties.connection_state.len() ==> in_class(
                #[trigger] v.properties.connection_state[i],
                CharClass::Alpha,
            ),
        v.properties.devpath.len() >= 1,
        forall|i: int|
            0 <= i < v.properties.devpath.len() ==> in_class(
                #[trigger] v.properties.devpath[i],
                CharClass::Path,
            ),
        v.properties.live matches Some(l) ==> {
            &&& l.product.len() >= 1 && l.model.len() >= 1 && l.device.len() >= 1
            &&& forall|i: int| 0 <= i < l.product.len() ==> !is_space(#[trigger] l.product[i])
            &&& forall|i: int| 0 <= i < l.model.len() ==> !is_space(#[trigger] l.model[i])
            &&& forall|i: int| 0 <= i < l.device.len() ==> !is_space(#[trigger] l.device[i])
            &&& id_text.len() >= 1
            &&& forall|i: int|
                0 <= i < id_text.len() ==> in_class(#[trigger] id_text[i], CharClass::Digit)
            &&& digits_value(id_text) == l.transport_id
            &&& l.transport_id <= usize::MAX
        },
    ensures
        parse_line(fields_line(v, id_text)) == Some(v),
{
    let name = v.connection_name;
    let state = v.properties.connection_state;
    let path = v.properties.devpath;
    let tail = match v.properties.live {
        None => Seq::<char>::empty(),
        Some(l) => seq![' '] + label(0) + l.product + seq![' '] + label(1) + l.model + seq![' ']
            + label(2) + l.device + seq![' '] + label(3) + id_text,
    };
    let s = fields_line(v, id_text);
    assert(s =~= name + seq![' '] + state + seq![' '] + path + tail);
    let a2 = name.len() as int;
    let c2 = a2 + 1 + state.len();
    let d2 = c2 + 1 + path.len();
    assert forall|k: int| 0 <= k < a2 implies in_class(#[trigger] s[k], CharClass::Name) by {
        assert(s[k] == name[k]);
    }
    lemma_run_end_exact(s, 0, a2, CharClass::Name);
    assert(s[a2 + 1] == state[0]);
    lemma_run_end_exact(s, a2, a2 + 1, CharClass::Space);
    assert forall|k: int| a2 + 1 <= k < c2 implies in_class(#[trigger] s[k], CharClass::Alpha) by {
        assert(s[k] == state[k - a2 - 1]);
    }
    lemma_run_end_exact(s, a2 + 1, c2, CharClass::Alpha);
    assert forall|k: int| c2 + 1 <= k < d2 implies in_class(#[trigger] s[k], CharClass::Path) by {
        assert(s[k] == path[k - c2 - 1]);
    }
    if v.properties.live is Some {
        assert(s[d2] == ' ');
    }
    lemma_run_end_exact(s, c2 + 1, d2, CharClass::Path);
    assert(s.subrange(0, a2) =~= name);
    assert(s.subrange(a2 + 1, c2) =~= state);
    assert(s.subrange(c2 + 1, d2) =~= path);
    assert(s.subrange(d2, s.len() as int) =~= tail);
    if let Some(l) = v.properties.live {
        assert forall|j: int| 0 <= j < id_text.len() && is_space(#[trigger] id_text[j]) implies j
            + 1 < id_text.len() && starts_later_label(id_text[j + 1], 2) by {
            assert(in_class(id_text[j], CharClass::Digit));
        }
        lemma_value_read_back(l.device, 2, id_text);
        let td = l.device + seq![' '] + label(3) + id_text;
        lemma_value_read_back(l.model, 1, td);
        let tm = l.model + seq![' '] + label(2) + td;
        lemma_value_read_back(l.product, 0, tm);
        let tp = l.product + seq![' '] + label(1) + tm;
        let w = seq![' '] + label(0) + tp;
        assert(w =~= tail);
        assert(w.subrange(1, w.len() as int).subrange(0, label(0).len() as int) =~= label(0));
        assert(w.subrange(1 + label(0).len() as int, w.len() as int) =~= tp);
        lemma_run_end_exact(id_text, 0, id_text.len() as int, CharClass::Digit);
        assert(id_text.subrange(0, id_text.len() as int) =~= id_text);
    }
}

} // verus!
