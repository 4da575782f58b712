//! The structured values carried by the wire protocol.
//!
//! A payload, result or error travelling between the shell and the backend
//! is a tagged structured value: null, boolean, number, string, array or
//! object. Numbers are kept as their decimal literal bytes, exactly as they
//! appear on the wire, so a response is passed back to the caller unchanged
//! and no inexact arithmetic is ever performed on it. Strings and object
//! keys are unescaped UTF-8 bytes.

use vstd::prelude::*;

verus! {

/// An executable structured value.
#[derive(Debug, PartialEq, Eq)]
pub enum JsonValue {
    Null,
    Bool(bool),
    /// A number, stored as its decimal literal bytes (for example `-12.5e3`).
    Num(Vec<u8>),
    /// A string, stored as its unescaped bytes.
    Str(Vec<u8>),
    Arr(Vec<JsonValue>),
    Obj(Vec<JsonMember>),
}

/// One key/value member of an object.
#[derive(Debug, PartialEq, Eq)]
pub struct JsonMember {
    pub key: Vec<u8>,
    pub val: JsonValue,
}

/// The mathematical model of a structured value.
pub ghost enum JsonData {
    Null,
    Bool(bool),
    Num(Seq<u8>),
    Str(Seq<u8>),
    Arr(Seq<JsonData>),
    Obj(Seq<(Seq<u8>, JsonData)>),
}

impl JsonValue {
    /// The mathematical value this executable value stands for.
    pub open spec fn model(&self) -> JsonData
        decreases self,
    {
        match self {
            JsonValue::Null => JsonData::Null,
            JsonValue::Bool(b) => JsonData::Bool(*b),
            JsonValue::Num(l) => JsonData::Num(l@),
            JsonValue::Str(s) => JsonData::Str(s@),
            JsonValue::Arr(xs) => JsonData::Arr(models(xs@)),
            JsonValue::Obj(ms) => JsonData::Obj(member_models(ms@)),
        }
    }
}

/// The model of one object member.
pub open spec fn member_model(m: JsonMember) -> (Seq<u8>, JsonData)
    decreases m,
{
    (m.key@, m.val.model())
}

/// The models of a sequence of values, element by element.
pub open spec fn models(xs: Seq<JsonValue>) -> Seq<JsonData>
    decreases xs,
{
    Seq::new(xs.len(), |i: int| if 0 <= i < xs.len() { xs[i].model() } else { JsonData::Null })
}

/// The models of a sequence of object members, element by element.
pub open spec fn member_models(ms: Seq<JsonMember>) -> Seq<(Seq<u8>, JsonData)>
    decreases ms,
{
    Seq::new(ms.len(), |i: int| if 0 <= i < ms.len() { member_model(ms[i]) } else { (Seq::empty(), JsonData::Null) })
}

/// What `member_models` says element by element.
pub proof fn lemma_member_models_index(ms: Seq<JsonMember>, i: int)
    requires
        0 <= i < ms.len(),
    ensures
        member_models(ms).len() == ms.len(),
        member_models(ms)[i] == member_model(ms[i]),
        member_models(ms)[i].0 == ms[i].key@,
        member_models(ms)[i].1 == ms[i].val.model(),
{
}

/// Bytes that may appear in a number literal.
pub open spec fn is_num_byte(b: u8) -> bool {
    (0x30 <= b && b <= 0x39) || b == 0x2d || b == 0x2b || b == 0x2e || b == 0x65 || b == 0x45
}

/// A number literal the serializer can emit verbatim: non-empty, made of
/// number bytes, and starting with a sign or digit.
pub open spec fn wf_num_lit(s: Seq<u8>) -> bool {
    &&& s.len() > 0
    &&& (forall|i: int| 0 <= i < s.len() ==> is_num_byte(#[trigger] s[i]))
    &&& (s[0] == 0x2d || (0x30 <= s[0] && s[0] <= 0x39))
}

/// A value the serializer can turn into one self-delimited message: every
/// number it holds is a genuine decimal literal. Strings and keys may hold
/// any bytes at all; the escaping takes care of them.
pub open spec fn wf_data(d: JsonData) -> bool
    decreases d, 0int,
{
    match d {
        JsonData::Null => true,
        JsonData::Bool(_) => true,
        JsonData::Num(l) => wf_num_lit(l),
        JsonData::Str(_) => true,
        JsonData::Arr(xs) => wf_data_seq(xs, 0),
        JsonData::Obj(ms) => wf_member_seq(ms, 0),
    }
}

pub open spec fn wf_data_seq(xs: Seq<JsonData>, i: int) -> bool
    decreases xs, xs.len() - i + 1,
{
    if i < 0 || i >= xs.len() {
        true
    } else {
        wf_data(xs[i]) && wf_data_seq(xs, i + 1)
    }
}

pub open spec fn wf_member_seq(ms: Seq<(Seq<u8>, JsonData)>, i: int) -> bool
    decreases ms, ms.len() - i + 1,
{
    if i < 0 || i >= ms.len() {
        true
    } else {
        wf_data(ms[i].1) && wf_member_seq(ms, i + 1)
    }
}

/// The lower-case hex digit for a nibble.
pub open spec fn spec_hex_digit(d: int) -> u8 {
    if d < 10 {
        (0x30 + d) as u8
    } else {
        (0x57 + d) as u8
    }
}

/// How one byte of a string is written on the wire. Control bytes without
/// a short escape get the four-digit form, so every byte sequence frames.
pub open spec fn spec_esc_byte(b: u8) -> Seq<u8> {
    if b == 0x22 {
        seq![0x5c, 0x22]
    } else if b == 0x5c {
        seq![0x5c, 0x5c]
    } else if b == 0x0a {
        seq![0x5c, 0x6e]
    } else if b == 0x0d {
        seq![0x5c, 0x72]
    } else if b == 0x09 {
        seq![0x5c, 0x74]
    } else if b < 0x20 {
        seq![0x5c, 0x75, 0x30, 0x30, spec_hex_digit(b as int / 16), spec_hex_digit(
            b as int % 16)]
    } else {
        seq![b]
    }
}

pub open spec fn spec_esc(s: Seq<u8>) -> Seq<u8>
    decreases s.len(),
{
    if s.len() == 0 {
        Seq::empty()
    } else {
        spec_esc(s.drop_last()) + spec_esc_byte(s.last())
    }
}

/// The wire form of a string: quoted and escaped.
pub open spec fn spec_ser_string(s: Seq<u8>) -> Seq<u8> {
    seq![0x22] + spec_esc(s) + seq![0x22]
}

/// The wire form of a structured value.
pub open spec fn spec_ser(d: JsonData) -> Seq<u8>
    decreases d, 0int,
{
    match d {
        JsonData::Null => seq![0x6e, 0x75, 0x6c, 0x6c],
        JsonData::Bool(b) => if b {
            seq![0x74, 0x72, 0x75, 0x65]
        } else {
            seq![0x66, 0x61, 0x6c, 0x73, 0x65]
        },
        JsonData::Num(l) => l,
        JsonData::Str(s) => spec_ser_string(s),
        JsonData::Arr(xs) => seq![0x5b] + spec_ser_elems(xs, 0) + seq![0x5d],
        JsonData::Obj(ms) => seq![0x7b] + spec_ser_members(ms, 0) + seq![0x7d],
    }
}

/// The wire form of the elements of an array from index `i` on, joined by commas.
pub open spec fn spec_ser_elems(xs: Seq<JsonData>, i: int) -> Seq<u8>
    decreases xs, xs.len() - i + 1,
{
    if i < 0 || i >= xs.len() {
        Seq::empty()
    } else if i == xs.len() - 1 {
        spec_ser(xs[i])
    } else {
        spec_ser(xs[i]) + seq![0x2c] + spec_ser_elems(xs, i + 1)
    }
}

/// The wire form of one object member.
pub open spec fn spec_ser_member(m: (Seq<u8>, JsonData)) -> Seq<u8>
    decreases m, 1int,
{
    spec_ser_string(m.0) + seq![0x3a] + spec_ser(m.1)
}

/// The wire form of the members of an object from index `i` on, joined by commas.
pub open spec fn spec_ser_members(ms: Seq<(Seq<u8>, JsonData)>, i: int) -> Seq<u8>
    decreases ms, ms.len() - i + 1,
{
    if i < 0 || i >= ms.len() {
        Seq::empty()
    } else if i == ms.len() - 1 {
        spec_ser_member(ms[i])
    } else {
        spec_ser_member(ms[i]) + seq![0x2c] + spec_ser_members(ms, i + 1)
    }
}

/// Appends the escaped form of `s` to `out`.
pub fn push_escaped(s: &Vec<u8>, out: &mut Vec<u8>)
    ensures
        final(out)@ == old(out)@ + spec_esc(s@),
{
    let mut j: usize = 0;
    while j < s.len()
        invariant
            j <= s.len(),
            out@ == old(out)@ + spec_esc(s@.take(j as int)),
        decreases s.len() - j,
    {
        let b = s[j];
        proof {
            assert(s@.take(j + 1).drop_last() =~= s@.take(j as int));
            assert(s@.take(j + 1).last() == s@[j as int]);
        }
        if b == 0x22 {
            out.push(0x5c);
            out.push(0x22);
        } else if b == 0x5c {
            out.push(0x5c);
            out.push(0x5c);
        } else if b == 0x0a {
            out.push(0x5c);
            out.push(0x6e);
        } else if b == 0x0d {
            out.push(0x5c);
            out.push(0x72);
        } else if b == 0x09 {
            out.push(0x5c);
            out.push(0x74);
        } else if b < 0x20 {
            out.push(0x5c);
            out.push(0x75);
            out.push(0x30);
            out.push(0x30);
            let hi = b / 16;
            let lo = b % 16;
            out.push(if hi < 10 { 0x30 + hi } else { 0x57 + hi });
            out.push(if lo < 10 { 0x30 + lo } else { 0x57 + lo });
        } else {
            out.push(b);
        }
        proof {
            assert(out@ =~= old(out)@ + spec_esc(s@.take(j + 1)));
        }
        j = j + 1;
    }
    proof {
        assert(s@.take(s@.len() as int) =~= s@);
    }
}

/// Appends the quoted, escaped wire form of string bytes `s` to `out`.
pub fn push_string(s: &Vec<u8>, out: &mut Vec<u8>)
    ensures
        final(out)@ == old(out)@ + spec_ser_string(s@),
{
    out.push(0x22);
    push_escaped(s, out);
    out.push(0x22);
    proof {
        assert(out@ =~= old(out)@ + spec_ser_string(s@));
    }
}

/// Appends the wire form of `v` to `out`.
pub fn push_value(v: &JsonValue, out: &mut Vec<u8>)
    ensures
        final(out)@ == old(out)@ + spec_ser(v.model()),
    decreases *v, 0int,
{
    match v {
        JsonValue::Null => {
            out.push(0x6e);
            out.push(0x75);
            out.push(0x6c);
            out.push(0x6c);
            proof {
                assert(out@ =~= old(out)@ + spec_ser(v.model()));
            }
        },
        JsonValue::Bool(b) => {
            if *b {
                out.push(0x74);
                out.push(0x72);
                out.push(0x75);
                out.push(0x65);
            } else {
                out.push(0x66);
                out.push(0x61);
                out.push(0x6c);
                out.push(0x73);
                out.push(0x65);
            }
            proof {
                assert(out@ =~= old(out)@ + spec_ser(v.model()));
            }
        },
        JsonValue::Num(l) => {
            let mut j: usize = 0;
            while j < l.len()
                invariant
                    j <= l.len(),
                    out@ == old(out)@ + l@.take(j as int),
                decreases l@.len() - j,
            {
                out.push(l[j]);
                proof {
                    assert(out@ =~= old(out)@ + l@.take(j + 1));
                }
                j = j + 1;
            }
            proof {
                assert(l@.take(l@.len() as int) =~= l@);
            }
        },
        JsonValue::Str(s) => {
            push_string(s, out);
        },
        JsonValue::Arr(xs) => {
            out.push(0x5b);
            push_elems(xs, 0, out);
            out.push(0x5d);
            proof {
                assert(out@ =~= old(out)@ + spec_ser(v.model()));
            }
        },
        JsonValue::Obj(ms) => {
            out.push(0x7b);
            push_members(ms, 0, out);
            out.push(0x7d);
            proof {
                assert(out@ =~= old(out)@ + spec_ser(v.model()));
            }
        },
    }
}

/// Appends the comma-joined wire forms of `xs[i..]` to `out`.
pub fn push_elems(xs: &Vec<JsonValue>, i: usize, out: &mut Vec<u8>)
    requires
        i <= xs.len(),
    ensures
        final(out)@ == old(out)@ + spec_ser_elems(models(xs@), i as int),
    decreases *xs, xs@.len() - i + 1,
{
    if i < xs.len() {
        push_value(&xs[i], out);
        if i + 1 < xs.len() {
            out.push(0x2c);
            push_elems(xs, i + 1, out);
            proof {
                assert(out@ =~= old(out)@ + spec_ser_elems(models(xs@), i as int));
            }
        } else {
            proof {
                assert(out@ =~= old(out)@ + spec_ser_elems(models(xs@), i as int));
            }
        }
    }
}

/// Appends the wire form of one object member to `out`.
pub fn push_member(m: &JsonMember, out: &mut Vec<u8>)
    ensures
        final(out)@ == old(out)@ + spec_ser_member(member_model(*m)),
    decreases *m, 1int,
{
    push_string(&m.key, out);
    out.push(0x3a);
    push_value(&m.val, out);
    proof {
        assert(out@ =~= old(out)@ + spec_ser_member(member_model(*m)));
    }
}

/// Appends the comma-joined wire forms of `ms[i..]` to `out`.
pub fn push_members(ms: &Vec<JsonMember>, i: usize, out: &mut Vec<u8>)
    requires
        i <= ms.len(),
    ensures
        final(out)@ == old(out)@ + spec_ser_members(member_models(ms@), i as int),
    decreases *ms, ms@.len() - i + 1,
{
    if i < ms.len() {
        push_member(&ms[i], out);
        if i + 1 < ms.len() {
            out.push(0x2c);
            push_members(ms, i + 1, out);
            proof {
                assert(out@ =~= old(out)@ + spec_ser_members(member_models(ms@), i as int));
            }
        } else {
            proof {
                assert(out@ =~= old(out)@ + spec_ser_members(member_models(ms@), i as int));
            }
        }
    }
}

/// Inter-token whitespace accepted by the decoder.
pub open spec fn is_ws(b: u8) -> bool {
    b == 0x20 || b == 0x09 || b == 0x0d
}

/// The first index at or after `i` holding a byte that is not whitespace.
pub open spec fn spec_skip_ws(s: Seq<u8>, i: int) -> int
    decreases s.len() - i,
{
    if 0 <= i < s.len() && is_ws(s[i]) {
        spec_skip_ws(s, i + 1)
    } else {
        i
    }
}

/// What an escape byte after a backslash stands for; `None` if the escape
/// is not recognised.
pub open spec fn spec_unesc(b: u8) -> Option<u8> {
    if b == 0x22 {
        Some(0x22)
    } else if b == 0x5c {
        Some(0x5c)
    } else if b == 0x2f {
        Some(0x2f)
    } else if b == 0x6e {
        Some(0x0a)
    } else if b == 0x74 {
        Some(0x09)
    } else if b == 0x72 {
        Some(0x0d)
    } else if b == 0x62 {
        Some(0x08)
    } else if b == 0x66 {
        Some(0x0c)
    } else {
        None
    }
}

/// Whether `b` is a hex digit.
pub open spec fn is_hex(b: u8) -> bool {
    (0x30 <= b && b <= 0x39) || (0x61 <= b && b <= 0x66) || (0x41 <= b && b <= 0x46)
}

/// The value of a hex digit.
pub open spec fn hex_val(b: u8) -> int {
    if 0x30 <= b && b <= 0x39 {
        b - 0x30
    } else if 0x61 <= b && b <= 0x66 {
        b - 0x57
    } else {
        b - 0x37
    }
}

/// Whether four hex digits stand at `i`.
pub open spec fn is_hex4(s: Seq<u8>, i: int) -> bool {
    &&& 0 <= i
    &&& i + 4 <= s.len()
    &&& is_hex(s[i])
    &&& is_hex(s[i + 1])
    &&& is_hex(s[i + 2])
    &&& is_hex(s[i + 3])
}

/// The value of the four hex digits at `i`.
pub open spec fn hex4_val(s: Seq<u8>, i: int) -> int {
    hex_val(s[i]) * 4096 + hex_val(s[i + 1]) * 256 + hex_val(s[i + 2]) * 16 + hex_val(
        s[i + 3])
}

/// The UTF-8 bytes of one code point.
pub open spec fn spec_utf8(cp: int) -> Seq<u8> {
    if cp < 0 {
        Seq::empty()
    } else if cp < 0x80 {
        seq![cp as u8]
    } else if cp < 0x800 {
        seq![(0xc0 + cp / 64) as u8, (0x80 + cp % 64) as u8]
    } else if cp < 0x10000 {
        seq![(0xe0 + cp / 4096) as u8, (0x80 + (cp / 64) % 64) as u8, (0x80 + cp % 64) as u8]
    } else {
        seq![
            (0xf0 + cp / 262144) as u8,
            (0x80 + (cp / 4096) % 64) as u8,
            (0x80 + (cp / 64) % 64) as u8,
            (0x80 + cp % 64) as u8,
        ]
    }
}

/// Parses the body of a string from index `i` (just past the opening quote)
/// up to and past the closing quote, unescaping as it goes. Four-digit
/// escapes decode to the UTF-8 bytes of their code point; a surrogate pair
/// decodes to one code point, a lone surrogate is malformed.
pub open spec fn spec_parse_str_body(s: Seq<u8>, i: int) -> Option<(Seq<u8>, int)>
    decreases s.len() - i,
{
    if i < 0 || i >= s.len() {
        None
    } else if s[i] == 0x22 {
        Some((Seq::empty(), i + 1))
    } else if s[i] == 0x5c {
        if i + 1 < s.len() {
            match spec_unesc(s[i + 1]) {
                Some(c) => match spec_parse_str_body(s, i + 2) {
                    Some((t, k)) => Some((seq![c] + t, k)),
                    None => None,
                },
                None => {
                    if s[i + 1] == 0x75 && is_hex4(s, i + 2) {
                        let c1 = hex4_val(s, i + 2);
                        if 0xd800 <= c1 && c1 < 0xdc00 {
                            if i + 8 <= s.len() && s[i + 6] == 0x5c && s[i + 7] == 0x75
                                && is_hex4(s, i + 8) {
                                let c2 = hex4_val(s, i + 8);
                                if 0xdc00 <= c2 && c2 < 0xe000 {
                                    let cp = 0x10000 + (c1 - 0xd800) * 0x400 + (c2 - 0xdc00);
                                    match spec_parse_str_body(s, i + 12) {
                                        Some((t, k)) => Some((spec_utf8(cp) + t, k)),
                                        None => None,
                                    }
                                } else {
                                    None
                                }
                            } else {
                                None
                            }
                        } else if 0xdc00 <= c1 && c1 < 0xe000 {
                            None
                        } else {
                            match spec_parse_str_body(s, i + 6) {
                                Some((t, k)) => Some((spec_utf8(c1) + t, k)),
                                None => None,
                            }
                        }
                    } else {
                        None
                    }
                },
            }
        } else {
            None
        }
    } else if s[i] < 0x20 {
        None
    } else {
        match spec_parse_str_body(s, i + 1) {
            Some((t, k)) => Some((seq![s[i]] + t, k)),
            None => None,
        }
    }
}

/// The end of the maximal run of number bytes starting at `i`.
pub open spec fn spec_num_end(s: Seq<u8>, i: int) -> int
    decreases s.len() - i,
{
    if 0 <= i < s.len() && is_num_byte(s[i]) {
        spec_num_end(s, i + 1)
    } else {
        i
    }
}

/// Parses one structured value starting at `i`, after optional whitespace.
/// Returns the value and the index just past it, or `None` on malformed
/// input. The comparisons against `i` re-establish bounds that hold of
/// every reachable input.
pub open spec fn spec_parse_value(s: Seq<u8>, i: int) -> Option<(JsonData, int)>
    decreases s.len() - i, 0int,
{
    let j = spec_skip_ws(s, i);
    if j < i || j >= s.len() {
        None
    } else {
        let b = s[j];
        if b == 0x6e {
            if j + 4 <= s.len() && s[j + 1] == 0x75 && s[j + 2] == 0x6c && s[j + 3] == 0x6c {
                Some((JsonData::Null, j + 4))
            } else {
                None
            }
        } else if b == 0x74 {
            if j + 4 <= s.len() && s[j + 1] == 0x72 && s[j + 2] == 0x75 && s[j + 3] == 0x65 {
                Some((JsonData::Bool(true), j + 4))
            } else {
                None
            }
        } else if b == 0x66 {
            if j + 5 <= s.len() && s[j + 1] == 0x61 && s[j + 2] == 0x6c && s[j + 3] == 0x73
                && s[j + 4] == 0x65 {
                Some((JsonData::Bool(false), j + 5))
            } else {
                None
            }
        } else if b == 0x22 {
            match spec_parse_str_body(s, j + 1) {
                Some((t, k)) => Some((JsonData::Str(t), k)),
                None => None,
            }
        } else if b == 0x2d || (0x30 <= b && b <= 0x39) {
            let e = spec_num_end(s, j);
            if j < e && e <= s.len() {
                Some((JsonData::Num(s.subrange(j, e)), e))
            } else {
                None
            }
        } else if b == 0x5b {
            let j2 = spec_skip_ws(s, j + 1);
            if j2 < s.len() && s[j2] == 0x5d {
                Some((JsonData::Arr(Seq::empty()), j2 + 1))
            } else if j2 <= j || j2 > s.len() {
                None
            } else {
                match spec_parse_elems(s, j2) {
                    Some((xs, k)) => Some((JsonData::Arr(xs), k)),
                    None => None,
                }
            }
        } else if b == 0x7b {
            let j2 = spec_skip_ws(s, j + 1);
            if j2 < s.len() && s[j2] == 0x7d {
                Some((JsonData::Obj(Seq::empty()), j2 + 1))
            } else if j2 <= j || j2 > s.len() {
                None
            } else {
                match spec_parse_members(s, j2) {
                    Some((ms, k)) => Some((JsonData::Obj(ms), k)),
                    None => None,
                }
            }
        } else {
            None
        }
    }
}

/// Parses the non-empty elements of an array from `i` up to and past the
/// closing bracket.
pub open spec fn spec_parse_elems(s: Seq<u8>, i: int) -> Option<(Seq<JsonData>, int)>
    decreases s.len() - i, 1int,
{
    match spec_parse_value(s, i) {
        Some((v, k)) => {
            if k <= i || k > s.len() {
                None
            } else {
                let k2 = spec_skip_ws(s, k);
                if k2 < s.len() && s[k2] == 0x2c {
                    if k2 + 1 <= i || k2 + 1 > s.len() {
                        None
                    } else {
                        match spec_parse_elems(s, k2 + 1) {
                            Some((rest, e)) => Some((seq![v] + rest, e)),
                            None => None,
                        }
                    }
                } else if k2 < s.len() && s[k2] == 0x5d {
                    Some((seq![v], k2 + 1))
                } else {
                    None
                }
            }
        },
        None => None,
    }
}

/// Parses the non-empty members of an object from `i` up to and past the
/// closing brace.
pub open spec fn spec_parse_members(s: Seq<u8>, i: int) -> Option<(Seq<(Seq<u8>, JsonData)>, int)>
    decreases s.len() - i, 1int,
{
    let j = spec_skip_ws(s, i);
    if j < i || j >= s.len() || s[j] != 0x22 {
        None
    } else {
        match spec_parse_str_body(s, j + 1) {
            Some((key, k)) => {
                if k <= i || k > s.len() {
                    None
                } else {
                    let c = spec_skip_ws(s, k);
                    if c < k || c >= s.len() || s[c] != 0x3a {
                        None
                    } else {
                        match spec_parse_value(s, c + 1) {
                            Some((v, k2)) => {
                                if k2 <= c + 1 || k2 > s.len() {
                                    None
                                } else {
                                    let k3 = spec_skip_ws(s, k2);
                                    if k3 < s.len() && s[k3] == 0x2c {
                                        if k3 + 1 <= i || k3 + 1 > s.len() {
                                            None
                                        } else {
                                            match spec_parse_members(s, k3 + 1) {
                                                Some((rest, e)) => Some((seq![(key, v)] + rest, e)),
                                                None => None,
                                            }
                                        }
                                    } else if k3 < s.len() && s[k3] == 0x7d {
                                        Some((seq![(key, v)], k3 + 1))
                                    } else {
                                        None
                                    }
                                }
                            },
                            None => None,
                        }
                    }
                }
            },
            None => None,
        }
    }
}

/// Advances past whitespace.
pub fn skip_ws(s: &Vec<u8>, i: usize) -> (r: usize)
    requires
        i <= s.len(),
    ensures
        r as int == spec_skip_ws(s@, i as int),
        i <= r <= s.len(),
{
    let mut j: usize = i;
    while j < s.len() && (s[j] == 0x20 || s[j] == 0x09 || s[j] == 0x0d)
        invariant
            i <= j <= s.len(),
            spec_skip_ws(s@, i as int) == spec_skip_ws(s@, j as int),
        decreases s.len() - j,
    {
        j = j + 1;
    }
    j
}

/// Advances past number bytes.
pub fn num_end(s: &Vec<u8>, i: usize) -> (r: usize)
    requires
        i <= s.len(),
    ensures
        r as int == spec_num_end(s@, i as int),
        i <= r <= s.len(),
{
    let mut j: usize = i;
    while j < s.len() && (
        (0x30 <= s[j] && s[j] <= 0x39) || s[j] == 0x2d || s[j] == 0x2b || s[j] == 0x2e
            || s[j] == 0x65 || s[j] == 0x45)
        invariant
            i <= j <= s.len(),
            spec_num_end(s@, i as int) == spec_num_end(s@, j as int),
        decreases s.len() - j,
    {
        j = j + 1;
    }
    j
}

/// Resolves one escape byte.
pub fn unesc(b: u8) -> (r: Option<u8>)
    ensures
        r == spec_unesc(b),
{
    if b == 0x22 {
        Some(0x22)
    } else if b == 0x5c {
        Some(0x5c)
    } else if b == 0x2f {
        Some(0x2f)
    } else if b == 0x6e {
        Some(0x0a)
    } else if b == 0x74 {
        Some(0x09)
    } else if b == 0x72 {
        Some(0x0d)
    } else if b == 0x62 {
        Some(0x08)
    } else if b == 0x66 {
        Some(0x0c)
    } else {
        None
    }
}

/// Reads one hex digit.
pub fn hex_nibble(b: u8) -> (r: Option<u8>)
    ensures
        (match r {
            Some(v) => is_hex(b) && v as int == hex_val(b) && v < 16,
            None => !is_hex(b),
        }),
{
    if 0x30 <= b && b <= 0x39 {
        Some(b - 0x30)
    } else if 0x61 <= b && b <= 0x66 {
        Some(b - 0x57)
    } else if 0x41 <= b && b <= 0x46 {
        Some(b - 0x37)
    } else {
        None
    }
}

/// Reads the four hex digits at `i`.
pub fn read_hex4(s: &Vec<u8>, i: usize) -> (r: Option<u32>)
    requires
        i <= s.len(),
    ensures
        (match r {
            Some(v) => is_hex4(s@, i as int) && v as int == hex4_val(s@, i as int)
                && v < 0x10000,
            None => !is_hex4(s@, i as int),
        }),
{
    if s.len() - i < 4 {
        return None;
    }
    match hex_nibble(s[i]) {
        None => None,
        Some(h0) => match hex_nibble(s[i + 1]) {
            None => None,
            Some(h1) => match hex_nibble(s[i + 2]) {
                None => None,
                Some(h2) => match hex_nibble(s[i + 3]) {
                    None => None,
                    Some(h3) => Some(
                        (h0 as u32) * 4096 + (h1 as u32) * 256 + (h2 as u32) * 16 + (
                        h3 as u32),
                    ),
                },
            },
        },
    }
}

/// Appends the UTF-8 bytes of one code point.
pub fn push_utf8(cp: u32, out: &mut Vec<u8>)
    requires
        cp < 0x110000,
    ensures
        final(out)@ == old(out)@ + spec_utf8(cp as int),
{
    if cp < 0x80 {
        out.push(cp as u8);
    } else if cp < 0x800 {
        out.push((0xc0 + cp / 64) as u8);
        out.push((0x80 + cp % 64) as u8);
    } else if cp < 0x10000 {
        out.push((0xe0 + cp / 4096) as u8);
        out.push((0x80 + (cp / 64) % 64) as u8);
        out.push((0x80 + cp % 64) as u8);
    } else {
        out.push((0xf0 + cp / 262144) as u8);
        out.push((0x80 + (cp / 4096) % 64) as u8);
        out.push((0x80 + (cp / 64) % 64) as u8);
        out.push((0x80 + cp % 64) as u8);
    }
    proof {
        assert(out@ =~= old(out)@ + spec_utf8(cp as int));
    }
}

/// Parses a string body from just past the opening quote.
pub fn parse_str_body(s: &Vec<u8>, i: usize) -> (r: Option<(Vec<u8>, usize)>)
    requires
        i <= s.len(),
    ensures
        (match r {
            Some((t, k)) => spec_parse_str_body(s@, i as int) == Some((t@, k as int))
                && i < k <= s.len(),
            None => spec_parse_str_body(s@, i as int) is None,
        }),
{
    let mut acc: Vec<u8> = Vec::new();
    let mut j: usize = i;
    loop
        invariant
            i <= j <= s.len(),
            spec_parse_str_body(s@, i as int) == (match spec_parse_str_body(s@, j as int) {
                Some((t, k)) => Some((acc@ + t, k)),
                None => None::<(Seq<u8>, int)>,
            }),
        decreases s.len() - j,
    {
        if j >= s.len() {
            return None;
        }
        let b = s[j];
        if b == 0x22 {
            proof {
                assert(acc@ + Seq::<u8>::empty() =~= acc@);
            }
            return Some((acc, j + 1));
        }
        if b == 0x5c {
            if j + 1 >= s.len() {
                return None;
            }
            match unesc(s[j + 1]) {
                None => {
                    if s[j + 1] != 0x75 {
                        return None;
                    }
                    match read_hex4(s, j + 2) {
                        None => {
                            return None;
                        },
                        Some(c1) => {
                            if 0xd800 <= c1 && c1 < 0xdc00 {
                                if s.len() - j < 8 {
                                    return None;
                                }
                                if s[j + 6] != 0x5c || s[j + 7] != 0x75 {
                                    return None;
                                }
                                match read_hex4(s, j + 8) {
                                    None => {
                                        return None;
                                    },
                                    Some(c2) => {
                                        if !(0xdc00 <= c2 && c2 < 0xe000) {
                                            return None;
                                        }
                                        let cp: u32 = 0x10000 + (c1 - 0xd800) * 0x400 + (c2
                                            - 0xdc00);
                                        proof {
                                            if let Some((t, k)) = spec_parse_str_body(s@, j
                                                + 12) {
                                                assert(acc@ + (spec_utf8(cp as int) + t)
                                                    =~= (acc@ + spec_utf8(cp as int)) + t);
                                            }
                                        }
                                        push_utf8(cp, &mut acc);
                                        j = j + 12;
                                    },
                                }
                            } else if 0xdc00 <= c1 && c1 < 0xe000 {
                                return None;
                            } else {
                                proof {
                                    if let Some((t, k)) = spec_parse_str_body(s@, j + 6) {
                                        assert(acc@ + (spec_utf8(c1 as int) + t) =~= (acc@
                                            + spec_utf8(c1 as int)) + t);
                                    }
                                }
                                push_utf8(c1, &mut acc);
                                j = j + 6;
                            }
                        },
                    }
                },
                Some(c) => {
                    proof {
                        if let Some((t, k)) = spec_parse_str_body(s@, j + 2) {
                            assert(acc@ + (seq![c] + t) =~= (acc@ + seq![c]) + t);
                        }
                    }
                    acc.push(c);
                    j = j + 2;
                },
            }
        } else if b < 0x20 {
            return None;
        } else {
            proof {
                if let Some((t, k)) = spec_parse_str_body(s@, j + 1) {
                    assert(acc@ + (seq![b] + t) =~= (acc@ + seq![b]) + t);
                }
            }
            acc.push(b);
            j = j + 1;
        }
    }
}

/// Parses one structured value starting at `i`.
pub fn parse_value(s: &Vec<u8>, i: usize) -> (r: Option<(JsonValue, usize)>)
    requires
        i <= s.len(),
    ensures
        (match r {
            Some((v, k)) => spec_parse_value(s@, i as int) == Some((v.model(), k as int))
                && i < k <= s.len(),
            None => spec_parse_value(s@, i as int) is None,
        }),
    decreases s@.len() - i, 2int,
{
    let j = skip_ws(s, i);
    if j >= s.len() {
        return None;
    }
    let b = s[j];
    if b == 0x6e {
        if s.len() - j >= 4 && s[j + 1] == 0x75 && s[j + 2] == 0x6c && s[j + 3] == 0x6c {
            Some((JsonValue::Null, j + 4))
        } else {
            None
        }
    } else if b == 0x74 {
        if s.len() - j >= 4 && s[j + 1] == 0x72 && s[j + 2] == 0x75 && s[j + 3] == 0x65 {
            Some((JsonValue::Bool(true), j + 4))
        } else {
            None
        }
    } else if b == 0x66 {
        if s.len() - j >= 5 && s[j + 1] == 0x61 && s[j + 2] == 0x6c && s[j + 3] == 0x73
            && s[j + 4] == 0x65 {
            Some((JsonValue::Bool(false), j + 5))
        } else {
            None
        }
    } else if b == 0x22 {
        match parse_str_body(s, j + 1) {
            Some((t, k)) => Some((JsonValue::Str(t), k)),
            None => None,
        }
    } else if b == 0x2d || (0x30 <= b && b <= 0x39) {
        let e = num_end(s, j);
        if j < e {
            let mut lit: Vec<u8> = Vec::new();
            let mut m: usize = j;
            while m < e
                invariant
                    j <= m <= e <= s.len(),
                    lit@ == s@.subrange(j as int, m as int),
                decreases e - m,
            {
                lit.push(s[m]);
                proof {
                    assert(lit@ =~= s@.subrange(j as int, m + 1));
                }
                m = m + 1;
            }
            Some((JsonValue::Num(lit), e))
        } else {
            None
        }
    } else if b == 0x5b {
        let j2 = skip_ws(s, j + 1);
        if j2 < s.len() && s[j2] == 0x5d {
            proof {
                assert(models(Seq::<JsonValue>::empty()) =~= Seq::<JsonData>::empty());
            }
            Some((JsonValue::Arr(Vec::new()), j2 + 1))
        } else if j2 <= j {
            None
        } else {
            match parse_elems(s, j2) {
                Some((xs, k)) => Some((JsonValue::Arr(xs), k)),
                None => None,
            }
        }
    } else if b == 0x7b {
        let j2 = skip_ws(s, j + 1);
        if j2 < s.len() && s[j2] == 0x7d {
            proof {
                assert(member_models(Seq::<JsonMember>::empty())
                    =~= Seq::<(Seq<u8>, JsonData)>::empty());
            }
            Some((JsonValue::Obj(Vec::new()), j2 + 1))
        } else if j2 <= j {
            None
        } else {
            match parse_members(s, j2) {
                Some((ms, k)) => Some((JsonValue::Obj(ms), k)),
                None => None,
            }
        }
    } else {
        None
    }
}

/// Parses the non-empty elements of an array up to and past the closing
/// bracket.
pub fn parse_elems(s: &Vec<u8>, i: usize) -> (r: Option<(Vec<JsonValue>, usize)>)
    requires
        i <= s.len(),
    ensures
        (match r {
            Some((xs, k)) => spec_parse_elems(s@, i as int) == Some((models(xs@), k as int))
                && i < k <= s.len(),
            None => spec_parse_elems(s@, i as int) is None,
        }),
    decreases s@.len() - i, 3int,
{
    match parse_value(s, i) {
        Some((v, k)) => {
            let k2 = skip_ws(s, k);
            if k2 < s.len() && s[k2] == 0x2c {
                match parse_elems(s, k2 + 1) {
                    Some((mut rest, e)) => {
                        let ghost rest0 = rest@;
                        rest.insert(0, v);
                        proof {
                            assert(models(rest@) =~= seq![v.model()] + models(rest0));
                        }
                        Some((rest, e))
                    },
                    None => None,
                }
            } else if k2 < s.len() && s[k2] == 0x5d {
                let mut xs: Vec<JsonValue> = Vec::new();
                xs.push(v);
                proof {
                    assert(models(xs@) =~= seq![v.model()]);
                }
                Some((xs, k2 + 1))
            } else {
                None
            }
        },
        None => None,
    }
}

/// Parses the non-empty members of an object up to and past the closing
/// brace.
pub fn parse_members(s: &Vec<u8>, i: usize) -> (r: Option<(Vec<JsonMember>, usize)>)
    requires
        i <= s.len(),
    ensures
        (match r {
            Some((ms, k)) => spec_parse_members(s@, i as int) == Some((member_models(ms@),
                k as int)) && i < k <= s.len(),
            None => spec_parse_members(s@, i as int) is None,
        }),
    decreases s@.len() - i, 3int,
{
    let j = skip_ws(s, i);
    if j >= s.len() {
        return None;
    }
    if s[j] != 0x22 {
        return None;
    }
    match parse_str_body(s, j + 1) {
        Some((key, k)) => {
            let c = skip_ws(s, k);
            if c >= s.len() {
                return None;
            }
            if s[c] != 0x3a {
                return None;
            }
            match parse_value(s, c + 1) {
                Some((v, k2)) => {
                    let k3 = skip_ws(s, k2);
                    if k3 < s.len() && s[k3] == 0x2c {
                        match parse_members(s, k3 + 1) {
                            Some((mut rest, e)) => {
                                let ghost rest0 = rest@;
                                let ghost gkey = key@;
                                let ghost gv = v.model();
                                rest.insert(0, JsonMember { key, val: v });
                                proof {
                                    assert(member_models(rest@) =~= seq![(gkey, gv)]
                                        + member_models(rest0));
                                }
                                Some((rest, e))
                            },
                            None => None,
                        }
                    } else if k3 < s.len() && s[k3] == 0x7d {
                        let ghost gkey = key@;
                        let ghost gv = v.model();
                        let mut ms: Vec<JsonMember> = Vec::new();
                        ms.push(JsonMember { key, val: v });
                        proof {
                            assert(member_models(ms@) =~= seq![(gkey, gv)]);
                        }
                        Some((ms, k3 + 1))
                    } else {
                        None
                    }
                },
                None => None,
            }
        },
        None => None,
    }
}

/// No newline byte occurs in `s`: it fits inside one frame.
pub open spec fn no_nl(s: Seq<u8>) -> bool {
    forall|i: int| 0 <= i < s.len() ==> (#[trigger] s[i]) != 0x0a
}

pub proof fn lemma_no_nl_concat(a: Seq<u8>, b: Seq<u8>)
    requires
        no_nl(a),
        no_nl(b),
    ensures
        no_nl(a + b),
{
    assert forall|i: int| 0 <= i < (a + b).len() implies (#[trigger] (a + b)[i]) != 0x0a by {
        if i < a.len() {
            assert((a + b)[i] == a[i]);
        } else {
            assert((a + b)[i] == b[i - a.len()]);
        }
    }
}

/// Escaping never emits a raw newline: the newline byte itself is written
/// as its two-byte escape.
proof fn lemma_esc_no_nl(s: Seq<u8>)
    ensures
        no_nl(spec_esc(s)),
    decreases s.len(),
{
    if s.len() > 0 {
        lemma_esc_no_nl(s.drop_last());
        assert(no_nl(spec_esc_byte(s.last())));
        lemma_no_nl_concat(spec_esc(s.drop_last()), spec_esc_byte(s.last()));
    }
}

/// A serialized string stays on one line, whatever bytes it holds.
pub proof fn lemma_ser_string_no_nl(s: Seq<u8>)
    ensures
        no_nl(spec_ser_string(s)),
{
    lemma_esc_no_nl(s);
    assert(no_nl(seq![0x22u8]));
    lemma_no_nl_concat(seq![0x22u8], spec_esc(s));
    lemma_no_nl_concat(seq![0x22u8] + spec_esc(s), seq![0x22u8]);
}

/// A well-formed value serializes without any newline byte, so one value
/// is always exactly one frame.
pub proof fn lemma_ser_no_nl(d: JsonData)
    requires
        wf_data(d),
    ensures
        no_nl(spec_ser(d)),
    decreases d, 0int,
{
    match d {
        JsonData::Null => {
            assert(no_nl(seq![0x6eu8, 0x75, 0x6c, 0x6c]));
        },
        JsonData::Bool(b) => {
            if b {
                assert(no_nl(seq![0x74u8, 0x72, 0x75, 0x65]));
            } else {
                assert(no_nl(seq![0x66u8, 0x61, 0x6c, 0x73, 0x65]));
            }
        },
        JsonData::Num(l) => {
            assert forall|i: int| 0 <= i < l.len() implies (#[trigger] l[i]) != 0x0a by {
                assert(is_num_byte(l[i]));
            }
        },
        JsonData::Str(s) => {
            lemma_ser_string_no_nl(s);
        },
        JsonData::Arr(xs) => {
            lemma_ser_elems_no_nl(xs, 0);
            assert(no_nl(seq![0x5bu8]));
            assert(no_nl(seq![0x5du8]));
            lemma_no_nl_concat(seq![0x5bu8], spec_ser_elems(xs, 0));
            lemma_no_nl_concat(seq![0x5bu8] + spec_ser_elems(xs, 0), seq![0x5du8]);
        },
        JsonData::Obj(ms) => {
            lemma_ser_members_no_nl(ms, 0);
            assert(no_nl(seq![0x7bu8]));
            assert(no_nl(seq![0x7du8]));
            lemma_no_nl_concat(seq![0x7bu8], spec_ser_members(ms, 0));
            lemma_no_nl_concat(seq![0x7bu8] + spec_ser_members(ms, 0), seq![0x7du8]);
        },
    }
}

proof fn lemma_ser_elems_no_nl(xs: Seq<JsonData>, i: int)
    requires
        wf_data_seq(xs, i),
    ensures
        no_nl(spec_ser_elems(xs, i)),
    decreases xs, xs.len() - i + 1,
{
    if 0 <= i && i < xs.len() {
        lemma_ser_no_nl(xs[i]);
        if i < xs.len() - 1 {
            lemma_ser_elems_no_nl(xs, i + 1);
            assert(no_nl(seq![0x2cu8]));
            lemma_no_nl_concat(spec_ser(xs[i]), seq![0x2cu8]);
            lemma_no_nl_concat(spec_ser(xs[i]) + seq![0x2cu8], spec_ser_elems(xs, i + 1));
        }
    }
}

proof fn lemma_ser_member_no_nl(m: (Seq<u8>, JsonData))
    requires
        wf_data(m.1),
    ensures
        no_nl(spec_ser_member(m)),
    decreases m, 1int,
{
    lemma_ser_string_no_nl(m.0);
    lemma_ser_no_nl(m.1);
    assert(no_nl(seq![0x3au8]));
    lemma_no_nl_concat(spec_ser_string(m.0), seq![0x3au8]);
    lemma_no_nl_concat(spec_ser_string(m.0) + seq![0x3au8], spec_ser(m.1));
}

proof fn lemma_ser_members_no_nl(ms: Seq<(Seq<u8>, JsonData)>, i: int)
    requires
        wf_member_seq(ms, i),
    ensures
        no_nl(spec_ser_members(ms, i)),
    decreases ms, ms.len() - i + 1,
{
    if 0 <= i && i < ms.len() {
        lemma_ser_member_no_nl(ms[i]);
        if i < ms.len() - 1 {
            lemma_ser_members_no_nl(ms, i + 1);
            assert(no_nl(seq![0x2cu8]));
            lemma_no_nl_concat(spec_ser_member(ms[i]), seq![0x2cu8]);
            lemma_no_nl_concat(spec_ser_member(ms[i]) + seq![0x2cu8], spec_ser_members(ms,
                i + 1));
        }
    }
}

/// Whether a number literal is well formed.
pub fn is_wf_num_lit(l: &Vec<u8>) -> (r: bool)
    ensures
        r == wf_num_lit(l@),
{
    if l.len() == 0 {
        return false;
    }
    let first = l[0];
    if !(first == 0x2d || (0x30 <= first && first <= 0x39)) {
        return false;
    }
    let mut j: usize = 0;
    while j < l.len()
        invariant
            j <= l.len(),
            l@.len() > 0,
            l@[0] == 0x2d || (0x30 <= l@[0] && l@[0] <= 0x39),
            forall|t: int| 0 <= t < j ==> is_num_byte(#[trigger] l@[t]),
        decreases l.len() - j,
    {
        let b = l[j];
        if !((0x30 <= b && b <= 0x39) || b == 0x2d || b == 0x2b || b == 0x2e || b == 0x65
            || b == 0x45) {
            return false;
        }
        j = j + 1;
    }
    true
}

/// Whether a value can be framed as one self-delimited message.
pub fn is_wf(v: &JsonValue) -> (r: bool)
    ensures
        r == wf_data(v.model()),
    decreases *v, 0int,
{
    match v {
        JsonValue::Null => true,
        JsonValue::Bool(_) => true,
        JsonValue::Num(l) => is_wf_num_lit(l),
        JsonValue::Str(_) => true,
        JsonValue::Arr(xs) => is_wf_elems(xs, 0),
        JsonValue::Obj(ms) => is_wf_members(ms, 0),
    }
}

fn is_wf_elems(xs: &Vec<JsonValue>, i: usize) -> (r: bool)
    requires
        i <= xs.len(),
    ensures
        r == wf_data_seq(models(xs@), i as int),
    decreases *xs, xs@.len() - i + 1,
{
    if i == xs.len() {
        true
    } else {
        if !is_wf(&xs[i]) {
            false
        } else {
            is_wf_elems(xs, i + 1)
        }
    }
}

fn is_wf_members(ms: &Vec<JsonMember>, i: usize) -> (r: bool)
    requires
        i <= ms.len(),
    ensures
        r == wf_member_seq(member_models(ms@), i as int),
    decreases *ms, ms@.len() - i + 1,
{
    if i == ms.len() {
        true
    } else {
        proof {
            lemma_member_models_index(ms@, i as int);
        }
        if !is_wf(&ms[i].val) {
            false
        } else {
            is_wf_members(ms, i + 1)
        }
    }
}

/// A byte that can begin the wire form of a value.
pub open spec fn is_value_start(b: u8) -> bool {
    b == 0x6e || b == 0x74 || b == 0x66 || b == 0x22 || b == 0x5b || b == 0x7b || b == 0x2d
        || (0x30 <= b && b <= 0x39)
}

/// A well-formed value's wire form is non-empty and begins with a value
/// starter, never whitespace or a delimiter.
pub proof fn lemma_ser_start(d: JsonData)
    requires
        wf_data(d),
    ensures
        spec_ser(d).len() > 0,
        is_value_start(spec_ser(d)[0]),
    decreases d,
{
    match d {
        JsonData::Null => {},
        JsonData::Bool(_) => {},
        JsonData::Num(l) => {},
        JsonData::Str(_) => {},
        JsonData::Arr(_) => {},
        JsonData::Obj(_) => {},
    }
}

/// Escaping consumed from the front: the head byte's escape comes first.
proof fn lemma_esc_head(t: Seq<u8>)
    requires
        t.len() > 0,
    ensures
        spec_esc(t) == spec_esc_byte(t[0]) + spec_esc(t.drop_first()),
    decreases t.len(),
{
    if t.len() == 1 {
        assert(t.drop_last() =~= Seq::<u8>::empty());
        assert(t.drop_first() =~= Seq::<u8>::empty());
        assert(spec_esc(t) =~= spec_esc_byte(t[0]) + spec_esc(t.drop_first()));
    } else {
        let dl = t.drop_last();
        lemma_esc_head(dl);
        assert(dl[0] == t[0]);
        assert(t.drop_first().drop_last() =~= dl.drop_first());
        assert(t.drop_first().last() == t.last());
        assert(spec_esc(t.drop_first()) == spec_esc(dl.drop_first())
            + spec_esc_byte(t.last()));
        assert(spec_esc(t) =~= spec_esc_byte(t[0]) + spec_esc(t.drop_first()));
    }
}

/// The maximal run of number bytes ends exactly where the number bytes do.
proof fn lemma_num_end_scan(s: Seq<u8>, k: int, e: int)
    requires
        0 <= k <= e <= s.len(),
        forall|t: int| k <= t < e ==> is_num_byte(#[trigger] s[t]),
        e == s.len() || !is_num_byte(s[e]),
    ensures
        spec_num_end(s, k) == e,
    decreases e - k,
{
    if k < e {
        lemma_num_end_scan(s, k + 1, e);
    }
}

/// Parsing the string body written by the serializer recovers exactly the
/// original bytes and stops just past the closing quote.
proof fn lemma_parse_str_body_of_esc(t: Seq<u8>, s: Seq<u8>, i: int)
    requires
        0 <= i,
        i + spec_esc(t).len() + 1 <= s.len(),
        s.subrange(i, i + spec_esc(t).len()) == spec_esc(t),
        s[i + spec_esc(t).len()] == 0x22,
    ensures
        spec_parse_str_body(s, i) == Some((t, i + spec_esc(t).len() + 1)),
    decreases t.len(),
{
    if t.len() == 0 {
        assert(spec_esc(t).len() == 0);
    } else {
        lemma_esc_head(t);
        let b = t[0];
        let eb = spec_esc_byte(b);
        let rest = spec_esc(t.drop_first());
        assert(spec_esc(t) == eb + rest);
        assert(forall|u: int| 0 <= u < spec_esc(t).len() ==> s[i + u] == #[trigger] spec_esc(
            t)[u]) by {
            assert(forall|u: int| 0 <= u < spec_esc(t).len() ==> #[trigger] s.subrange(i, i
                + spec_esc(t).len())[u] == s[i + u]);
        }
        let i2 = i + eb.len();
        assert(s.subrange(i2, i2 + rest.len()) =~= rest) by {
            assert(forall|u: int| 0 <= u < rest.len() ==> #[trigger] s.subrange(i2, i2
                + rest.len())[u] == s[i2 + u] && spec_esc(t)[eb.len() + u] == rest[u]);
        }
        assert(s[i2 + rest.len()] == 0x22);
        lemma_parse_str_body_of_esc(t.drop_first(), s, i2);
        if b == 0x22 || b == 0x5c || b == 0x0a || b == 0x0d || b == 0x09 {
            assert(spec_esc(t)[0] == eb[0] && spec_esc(t)[1] == eb[1]);
            assert(s[i] == spec_esc(t)[0]);
            assert(s[i + 1] == spec_esc(t)[1]);
            assert(s[i] == 0x5c);
            assert(spec_unesc(s[i + 1]) == Some(b));
            assert(seq![b] + t.drop_first() =~= t);
        } else if b < 0x20 {
            assert(forall|u: int| 0 <= u < 6 ==> spec_esc(t)[u] == #[trigger] eb[u]);
            assert(forall|u: int| 0 <= u < 6 ==> s[i + u] == #[trigger] spec_esc(t)[u]);
            assert(s[i] == 0x5c && s[i + 1] == 0x75);
            assert(spec_unesc(0x75) is None);
            assert(s[i + 2] == 0x30 && s[i + 3] == 0x30);
            assert(s[i + 4] == spec_hex_digit(b as int / 16));
            assert(s[i + 5] == spec_hex_digit(b as int % 16));
            assert(is_hex4(s, i + 2));
            assert(hex_val(s[i + 4]) == b as int / 16);
            assert(hex_val(s[i + 5]) == b as int % 16);
            assert(hex4_val(s, i + 2) == b as int);
            assert(spec_utf8(b as int) =~= seq![b]);
            assert(seq![b] + t.drop_first() =~= t);
        } else {
            assert(spec_esc(t)[0] == eb[0]);
            assert(s[i] == spec_esc(t)[0]);
            assert(s[i] == b);
            assert(seq![b] + t.drop_first() =~= t);
        }
    }
}

/// Decoding is the inverse of encoding: the parser applied to a
/// well-formed value's wire form returns exactly that value and consumes
/// exactly its bytes, wherever the form stands in a larger sequence, as
/// long as no number byte directly follows it (the delimiters of the wire
/// protocol never are ones).
#[verifier::rlimit(60)]
pub proof fn lemma_parse_of_ser(d: JsonData, s: Seq<u8>, i: int)
    requires
        wf_data(d),
        0 <= i,
        i + spec_ser(d).len() <= s.len(),
        s.subrange(i, i + spec_ser(d).len()) == spec_ser(d),
        i + spec_ser(d).len() == s.len() || !is_num_byte(s[i + spec_ser(d).len()]),
    ensures
        spec_parse_value(s, i) == Some((d, i + spec_ser(d).len())),
    decreases d, 0int,
{
    let w = spec_ser(d);
    let e = i + w.len();
    assert(forall|u: int| 0 <= u < w.len() ==> s[i + u] == #[trigger] w[u]) by {
        assert(forall|u: int| 0 <= u < w.len() ==> #[trigger] s.subrange(i, e)[u] == s[i
            + u]);
    }
    lemma_ser_start(d);
    assert(s[i] == w[0]);
    assert(spec_skip_ws(s, i) == i);
    match d {
        JsonData::Null => {
            assert(s[i + 1] == 0x75 && s[i + 2] == 0x6c && s[i + 3] == 0x6c);
        },
        JsonData::Bool(b) => {
            if b {
                assert(s[i + 1] == 0x72 && s[i + 2] == 0x75 && s[i + 3] == 0x65);
            } else {
                assert(s[i + 1] == 0x61 && s[i + 2] == 0x6c && s[i + 3] == 0x73 && s[i + 4]
                    == 0x65);
            }
        },
        JsonData::Num(l) => {
            assert forall|t: int| i <= t < e implies is_num_byte(#[trigger] s[t]) by {
                assert(s[t] == w[t - i]);
                assert(is_num_byte(l[t - i]));
            }
            lemma_num_end_scan(s, i, e);
            assert(s.subrange(i, e) =~= l);
        },
        JsonData::Str(t) => {
            assert(s[i] == 0x22);
            let esct = spec_esc(t);
            assert(s.subrange(i + 1, i + 1 + esct.len()) =~= esct) by {
                assert(forall|u: int| 0 <= u < esct.len() ==> #[trigger] s.subrange(i + 1, i
                    + 1 + esct.len())[u] == s[i + 1 + u] && w[1 + u] == esct[u]);
            }
            assert(s[i + 1 + esct.len()] == w[1 + esct.len() as int]);
            assert(w[1 + esct.len() as int] == 0x22);
            lemma_parse_str_body_of_esc(t, s, i + 1);
        },
        JsonData::Arr(xs) => {
            assert(s[i] == 0x5b);
            let inner = spec_ser_elems(xs, 0);
            if xs.len() == 0 {
                assert(inner =~= Seq::<u8>::empty());
                assert(w =~= seq![0x5bu8, 0x5d]);
                assert(s[i + 1] == 0x5d);
                assert(spec_skip_ws(s, i + 1) == i + 1);
                assert(xs =~= Seq::<JsonData>::empty());
            } else {
                assert(wf_data(xs[0]));
                lemma_ser_start(xs[0]);
                assert(inner[0] == spec_ser(xs[0])[0]);
                assert(s[i + 1] == w[1] && w[1] == inner[0]);
                assert(!is_ws(s[i + 1]) && s[i + 1] != 0x5d);
                assert(spec_skip_ws(s, i + 1) == i + 1);
                assert(s.subrange(i + 1, i + 1 + inner.len()) =~= inner) by {
                    assert(forall|u: int| 0 <= u < inner.len() ==> #[trigger] s.subrange(i
                        + 1, i + 1 + inner.len())[u] == s[i + 1 + u] && w[1 + u]
                        == inner[u]);
                }
                assert(s[i + 1 + inner.len()] == w[1 + inner.len() as int]);
                assert(w[1 + inner.len() as int] == 0x5d);
                lemma_parse_elems_of_ser(xs, 0, s, i + 1);
                assert(xs.skip(0) =~= xs);
            }
        },
        JsonData::Obj(ms) => {
            assert(s[i] == 0x7b);
            let inner = spec_ser_members(ms, 0);
            if ms.len() == 0 {
                assert(inner =~= Seq::<u8>::empty());
                assert(w =~= seq![0x7bu8, 0x7d]);
                assert(s[i + 1] == 0x7d);
                assert(spec_skip_ws(s, i + 1) == i + 1);
                assert(ms =~= Seq::<(Seq<u8>, JsonData)>::empty());
            } else {
                assert(inner[0] == spec_ser_member(ms[0])[0]);
                assert(spec_ser_member(ms[0])[0] == 0x22);
                assert(s[i + 1] == w[1] && w[1] == inner[0]);
                assert(spec_skip_ws(s, i + 1) == i + 1);
                assert(s.subrange(i + 1, i + 1 + inner.len()) =~= inner) by {
                    assert(forall|u: int| 0 <= u < inner.len() ==> #[trigger] s.subrange(i
                        + 1, i + 1 + inner.len())[u] == s[i + 1 + u] && w[1 + u]
                        == inner[u]);
                }
                assert(s[i + 1 + inner.len()] == w[1 + inner.len() as int]);
                assert(w[1 + inner.len() as int] == 0x7d);
                lemma_parse_members_of_ser(ms, 0, s, i + 1);
                assert(ms.skip(0) =~= ms);
            }
        },
    }
}

proof fn lemma_parse_elems_of_ser(xs: Seq<JsonData>, k: int, s: Seq<u8>, i: int)
    requires
        0 <= k < xs.len(),
        wf_data_seq(xs, k),
        0 <= i,
        i + spec_ser_elems(xs, k).len() + 1 <= s.len(),
        s.subrange(i, i + spec_ser_elems(xs, k).len()) == spec_ser_elems(xs, k),
        s[i + spec_ser_elems(xs, k).len()] == 0x5d,
    ensures
        spec_parse_elems(s, i) == Some((xs.skip(k), i + spec_ser_elems(xs, k).len() + 1)),
    decreases xs, xs.len() - k + 1,
{
    let w = spec_ser_elems(xs, k);
    assert(forall|u: int| 0 <= u < w.len() ==> s[i + u] == #[trigger] w[u]) by {
        assert(forall|u: int| 0 <= u < w.len() ==> #[trigger] s.subrange(i, i + w.len())[u]
            == s[i + u]);
    }
    let v = xs[k];
    assert(wf_data(v));
    let sv = spec_ser(v);
    lemma_ser_start(v);
    if k == xs.len() - 1 {
        assert(s.subrange(i, i + sv.len()) =~= sv);
        lemma_parse_of_ser(v, s, i);
        let p = i + sv.len();
        assert(spec_skip_ws(s, p) == p);
        assert(xs.skip(k) =~= seq![v]);
    } else {
        let rest = spec_ser_elems(xs, k + 1);
        assert(s.subrange(i, i + sv.len()) =~= sv) by {
            assert(forall|u: int| 0 <= u < sv.len() ==> #[trigger] s.subrange(i, i
                + sv.len())[u] == s[i + u] && w[u] == sv[u]);
        }
        assert(s[i + sv.len()] == w[sv.len() as int]);
        assert(w[sv.len() as int] == 0x2c);
        lemma_parse_of_ser(v, s, i);
        let p = i + sv.len();
        assert(spec_skip_ws(s, p) == p);
        assert(s.subrange(p + 1, p + 1 + rest.len()) =~= rest) by {
            assert(forall|u: int| 0 <= u < rest.len() ==> #[trigger] s.subrange(p + 1, p + 1
                + rest.len())[u] == s[p + 1 + u] && w[sv.len() + 1 + u] == rest[u]);
        }
        assert(s[p + 1 + rest.len()] == 0x5d);
        assert(wf_data_seq(xs, k + 1));
        lemma_parse_elems_of_ser(xs, k + 1, s, p + 1);
        assert(seq![v] + xs.skip(k + 1) =~= xs.skip(k));
    }
}

proof fn lemma_parse_of_ser_at(m: (Seq<u8>, JsonData), s: Seq<u8>, i: int)
    requires
        wf_data(m.1),
        0 <= i,
        i + spec_ser(m.1).len() <= s.len(),
        s.subrange(i, i + spec_ser(m.1).len()) == spec_ser(m.1),
        i + spec_ser(m.1).len() == s.len() || !is_num_byte(s[i + spec_ser(m.1).len()]),
    ensures
        spec_parse_value(s, i) == Some((m.1, i + spec_ser(m.1).len())),
    decreases m, 1int,
{
    lemma_parse_of_ser(m.1, s, i);
}

#[verifier::rlimit(60)]
proof fn lemma_parse_members_of_ser(ms: Seq<(Seq<u8>, JsonData)>, k: int, s: Seq<u8>, i: int)
    requires
        0 <= k < ms.len(),
        wf_member_seq(ms, k),
        0 <= i,
        i + spec_ser_members(ms, k).len() + 1 <= s.len(),
        s.subrange(i, i + spec_ser_members(ms, k).len()) == spec_ser_members(ms, k),
        s[i + spec_ser_members(ms, k).len()] == 0x7d,
    ensures
        spec_parse_members(s, i) == Some((ms.skip(k), i + spec_ser_members(ms, k).len()
            + 1)),
    decreases ms, ms.len() - k + 1,
{
    let w = spec_ser_members(ms, k);
    assert(forall|u: int| 0 <= u < w.len() ==> s[i + u] == #[trigger] w[u]) by {
        assert(forall|u: int| 0 <= u < w.len() ==> #[trigger] s.subrange(i, i + w.len())[u]
            == s[i + u]);
    }
    let m = ms[k];
    assert(wf_data(m.1));
    let sm = spec_ser_member(m);
    let key = m.0;
    let esck = spec_esc(key);
    let sv = spec_ser(m.1);
    assert(forall|u: int| 0 <= u < sm.len() ==> w[u] == #[trigger] sm[u]);
    assert(s[i] == w[0] && w[0] == 0x22);
    assert(spec_skip_ws(s, i) == i);
    // The key string: escape bytes then the closing quote.
    assert(s.subrange(i + 1, i + 1 + esck.len()) =~= esck) by {
        assert(forall|u: int| 0 <= u < esck.len() ==> #[trigger] s.subrange(i + 1, i + 1
            + esck.len())[u] == s[i + 1 + u] && sm[1 + u] == esck[u]);
    }
    assert(s[i + 1 + esck.len()] == sm[1 + esck.len() as int]);
    assert(sm[1 + esck.len() as int] == 0x22);
    lemma_parse_str_body_of_esc(key, s, i + 1);
    let kq = i + 2 + esck.len();
    // The colon.
    assert(s[kq] == sm[kq - i]);
    assert(sm[kq - i] == 0x3a);
    assert(spec_skip_ws(s, kq) == kq);
    // The member's value, followed by a comma or the closing brace.
    let vp = kq + 1;
    assert(s.subrange(vp, vp + sv.len()) =~= sv) by {
        assert(forall|u: int| 0 <= u < sv.len() ==> #[trigger] s.subrange(vp, vp
            + sv.len())[u] == s[vp + u] && sm[vp - i + u] == sv[u]);
    }
    lemma_ser_start(m.1);
    let p = vp + sv.len();
    if k == ms.len() - 1 {
        assert(s[p] == 0x7d);
        lemma_parse_of_ser_at(m, s, vp);
        assert(spec_skip_ws(s, p) == p);
        assert(m =~= (key, m.1));
        assert(ms.skip(k) =~= seq![m]);
        assert(seq![(key, m.1)] =~= seq![m]);
    } else {
        let rest = spec_ser_members(ms, k + 1);
        assert(s[p] == w[sm.len() as int]);
        assert(w[sm.len() as int] == 0x2c);
        lemma_parse_of_ser_at(m, s, vp);
        assert(spec_skip_ws(s, p) == p);
        assert(s.subrange(p + 1, p + 1 + rest.len()) =~= rest) by {
            assert(forall|u: int| 0 <= u < rest.len() ==> #[trigger] s.subrange(p + 1, p + 1
                + rest.len())[u] == s[p + 1 + u] && w[sm.len() + 1 + u] == rest[u]);
        }
        assert(s[p + 1 + rest.len()] == 0x7d);
        assert(wf_member_seq(ms, k + 1));
        lemma_parse_members_of_ser(ms, k + 1, s, p + 1);
        assert(m =~= (key, m.1));
        assert(seq![(key, m.1)] + ms.skip(k + 1) =~= ms.skip(k));
    }
}

/// The round trip stated plainly: a well-formed value's wire form parses
/// back to exactly that value, consuming every byte.
pub proof fn lemma_round_trip(d: JsonData)
    requires
        wf_data(d),
    ensures
        spec_parse_value(spec_ser(d), 0) == Some((d, spec_ser(d).len() as int)),
{
    let w = spec_ser(d);
    assert(w.subrange(0, w.len() as int) =~= w);
    lemma_parse_of_ser(d, w, 0);
}

} // verus!
