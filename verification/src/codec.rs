//! The wire codec: request and response envelopes and line framing.
//!
//! One message is one structured value on one line, terminated by a
//! newline byte. A request envelope carries `id`, `method` and `params`;
//! a response envelope carries `id` and exactly one of `result` or
//! `error`. A line that does not decode to a response envelope is
//! malformed; framing by lines re-aligns the stream at the next newline,
//! so one corrupt message never desynchronises later ones, and a
//! best-effort read of a corrupt line's id lets the call it addressed be
//! failed instead of left hanging.

use vstd::prelude::*;

use crate::json::JsonValue;
use crate::json::JsonData;
use crate::json::JsonMember;
use crate::json::spec_ser;
use crate::json::spec_ser_string;
use crate::json::spec_parse_value;
use crate::json::spec_skip_ws;
use crate::json::models;
use crate::json::wf_data;
use crate::json::no_nl;
use crate::json::lemma_no_nl_concat;
use crate::json::lemma_ser_no_nl;
use crate::json::lemma_ser_string_no_nl;
use crate::json::member_models;
use crate::json::push_string;
use crate::json::push_value;
use crate::json::parse_value;
use crate::json::skip_ws;

verus! {

/// One request as handed to the backend: immutable once constructed.
#[derive(Debug)]
pub struct RequestEnvelope {
    pub id: u64,
    pub method: Vec<u8>,
    pub params: Option<JsonValue>,
}

/// One decoded response: the id it answers and the backend's verdict,
/// `Ok` carrying `result` and `Err` carrying `error`.
#[derive(Debug)]
pub struct ResponseEnvelope {
    pub id: u64,
    pub outcome: Result<JsonValue, JsonValue>,
}

/// The model of a decoded response.
pub ghost struct RespData {
    pub id: u64,
    pub outcome: Result<JsonData, JsonData>,
}

impl ResponseEnvelope {
    /// The mathematical response this envelope stands for.
    pub open spec fn model(&self) -> RespData {
        RespData {
            id: self.id,
            outcome: match self.outcome {
                Ok(ref v) => Ok(v.model()),
                Err(ref v) => Err(v.model()),
            },
        }
    }
}

/// The model of an optional payload.
pub open spec fn params_model(p: Option<JsonValue>) -> Option<JsonData> {
    match p {
        Some(v) => Some(v.model()),
        None => None,
    }
}

/// The decimal digits of a non-negative integer, most significant first.
pub open spec fn spec_dec_u64(n: int) -> Seq<u8>
    decreases n,
{
    if n < 0 {
        Seq::empty()
    } else if n < 10 {
        seq![(0x30 + n) as u8]
    } else {
        spec_dec_u64(n / 10) + seq![(0x30 + n % 10) as u8]
    }
}

/// Appends the decimal digits of `n` to `out`.
pub fn push_u64_dec(n: u64, out: &mut Vec<u8>)
    ensures
        final(out)@ == old(out)@ + spec_dec_u64(n as int),
    decreases n,
{
    if n < 10 {
        out.push(0x30 + (n as u8));
        proof {
            assert(out@ =~= old(out)@ + spec_dec_u64(n as int));
        }
    } else {
        push_u64_dec(n / 10, out);
        out.push(0x30 + ((n % 10) as u8));
        proof {
            assert(out@ =~= old(out)@ + spec_dec_u64(n as int));
        }
    }
}

/// The one line that encodes a request: `{"id":N,"method":M,"params":P}`
/// followed by a newline. An absent payload is written as `null`.
pub open spec fn spec_encode_request(id: u64, method: Seq<u8>, params: Option<JsonData>)
    -> Seq<u8> {
    seq![0x7b, 0x22, 0x69, 0x64, 0x22, 0x3a] + spec_dec_u64(id as int)
        + seq![0x2c, 0x22, 0x6d, 0x65, 0x74, 0x68, 0x6f, 0x64, 0x22, 0x3a]
        + spec_ser_string(method)
        + seq![0x2c, 0x22, 0x70, 0x61, 0x72, 0x61, 0x6d, 0x73, 0x22, 0x3a]
        + (match params {
            Some(d) => spec_ser(d),
            None => spec_ser(JsonData::Null),
        }) + seq![0x7d, 0x0a]
}

/// Encodes one request envelope as one self-delimited line.
pub fn encode_request(req: &RequestEnvelope) -> (r: Vec<u8>)
    ensures
        r@ == spec_encode_request(req.id, req.method@, params_model(req.params)),
{
    let mut out: Vec<u8> = Vec::new();
    out.push(0x7b);
    out.push(0x22);
    out.push(0x69);
    out.push(0x64);
    out.push(0x22);
    out.push(0x3a);
    push_u64_dec(req.id, &mut out);
    out.push(0x2c);
    out.push(0x22);
    out.push(0x6d);
    out.push(0x65);
    out.push(0x74);
    out.push(0x68);
    out.push(0x6f);
    out.push(0x64);
    out.push(0x22);
    out.push(0x3a);
    push_string(&req.method, &mut out);
    out.push(0x2c);
    out.push(0x22);
    out.push(0x70);
    out.push(0x61);
    out.push(0x72);
    out.push(0x61);
    out.push(0x6d);
    out.push(0x73);
    out.push(0x22);
    out.push(0x3a);
    match &req.params {
        Some(v) => push_value(v, &mut out),
        None => push_value(&JsonValue::Null, &mut out),
    }
    out.push(0x7d);
    out.push(0x0a);
    proof {
        assert(out@ =~= spec_encode_request(req.id, req.method@, params_model(req.params)));
    }
    out
}

/// The key `id` as bytes.
pub open spec fn key_id() -> Seq<u8> {
    seq![0x69, 0x64]
}

/// The key `result` as bytes.
pub open spec fn key_result() -> Seq<u8> {
    seq![0x72, 0x65, 0x73, 0x75, 0x6c, 0x74]
}

/// The key `error` as bytes.
pub open spec fn key_error() -> Seq<u8> {
    seq![0x65, 0x72, 0x72, 0x6f, 0x72]
}

/// The value of the first member with the given key, if any.
pub open spec fn spec_lookup(ms: Seq<(Seq<u8>, JsonData)>, key: Seq<u8>) -> Option<JsonData>
    decreases ms.len(),
{
    if ms.len() == 0 {
        None
    } else if ms[0].0 == key {
        Some(ms[0].1)
    } else {
        spec_lookup(ms.drop_first(), key)
    }
}

/// Every byte is a decimal digit.
pub open spec fn all_digits(s: Seq<u8>) -> bool {
    forall|i: int| 0 <= i < s.len() ==> 0x30 <= #[trigger] s[i] && s[i] <= 0x39
}

/// The integer the decimal digits spell, most significant first.
pub open spec fn spec_digits_val(s: Seq<u8>) -> int
    decreases s.len(),
{
    if s.len() == 0 {
        0
    } else {
        spec_digits_val(s.drop_last()) * 10 + (s.last() - 0x30)
    }
}

/// A digit string never shrinks in value as digits are appended.
proof fn lemma_digits_val_prefix(s: Seq<u8>, m: int)
    requires
        0 <= m <= s.len(),
        all_digits(s),
    ensures
        spec_digits_val(s.take(m)) >= 0,
        spec_digits_val(s) >= spec_digits_val(s.take(m)),
    decreases s.len() - m,
{
    if m == s.len() {
        assert(s.take(m) =~= s);
        lemma_digits_val_nonneg(s);
    } else {
        lemma_digits_val_prefix(s, m + 1);
        lemma_digits_val_nonneg(s.take(m));
        assert(s.take(m + 1).drop_last() =~= s.take(m));
        assert(s.take(m + 1).last() == s[m]);
    }
}

proof fn lemma_digits_val_nonneg(s: Seq<u8>)
    requires
        all_digits(s),
    ensures
        spec_digits_val(s) >= 0,
    decreases s.len(),
{
    if s.len() > 0 {
        assert(all_digits(s.drop_last())) by {
            assert(forall|i: int| 0 <= i < s.len() - 1 ==> s.drop_last()[i] == s[i]);
        }
        lemma_digits_val_nonneg(s.drop_last());
    }
}

/// Reads an id from the digit bytes of a number literal: `Some` exactly
/// when the literal is a plain decimal integer that fits in 64 bits.
pub fn digits_to_u64(lit: &Vec<u8>) -> (r: Option<u64>)
    ensures
        (match r {
            Some(n) => lit@.len() > 0 && all_digits(lit@) && spec_digits_val(lit@) == n as int,
            None => !(lit@.len() > 0 && all_digits(lit@) && spec_digits_val(lit@) <= u64::MAX),
        }),
{
    if lit.len() == 0 {
        return None;
    }
    let mut acc: u64 = 0;
    let mut j: usize = 0;
    while j < lit.len()
        invariant
            0 <= j <= lit.len(),
            all_digits(lit@.take(j as int)),
            acc as int == spec_digits_val(lit@.take(j as int)),
        decreases lit.len() - j,
    {
        let b = lit[j];
        if b < 0x30 || b > 0x39 {
            return None;
        }
        let d: u64 = (b - 0x30) as u64;
        proof {
            assert(lit@.take(j + 1).drop_last() =~= lit@.take(j as int));
            assert(lit@.take(j + 1).last() == lit@[j as int]);
        }
        match acc.checked_mul(10) {
            Some(t) => {
                match t.checked_add(d) {
                    Some(next) => {
                        acc = next;
                    },
                    None => {
                        proof {
                            overflow_case(lit@, j as int, acc as int, d as int);
                        }
                        return None;
                    },
                }
            },
            None => {
                proof {
                    overflow_case(lit@, j as int, acc as int, d as int);
                }
                return None;
            },
        }
        j = j + 1;
    }
    proof {
        assert(lit@.take(lit@.len() as int) =~= lit@);
    }
    Some(acc)
}

/// If the digits seen so far already overflow, the whole literal does.
proof fn overflow_case(s: Seq<u8>, j: int, acc: int, d: int)
    requires
        0 <= j < s.len(),
        all_digits(s.take(j)),
        acc == spec_digits_val(s.take(j)),
        0x30 <= s[j] <= 0x39,
        d == s[j] - 0x30,
        acc * 10 + d > u64::MAX,
    ensures
        !(all_digits(s) && spec_digits_val(s) <= u64::MAX),
{
    if all_digits(s) {
        lemma_digits_val_prefix(s, j + 1);
        assert(s.take(j + 1).drop_last() =~= s.take(j));
        assert(s.take(j + 1).last() == s[j]);
        assert(spec_digits_val(s.take(j + 1)) == acc * 10 + d);
    }
}

/// What a decoded structured value says as a response envelope, if it is
/// one: an object whose `id` is a plain 64-bit decimal integer, holding
/// exactly one of `result` and `error`.
pub open spec fn spec_envelope_of(d: JsonData) -> Option<RespData> {
    match d {
        JsonData::Obj(ms) => {
            let idv = spec_lookup(ms, key_id());
            let resv = spec_lookup(ms, key_result());
            let errv = spec_lookup(ms, key_error());
            match idv {
                Some(JsonData::Num(lit)) => {
                    if lit.len() > 0 && all_digits(lit) && spec_digits_val(lit) <= u64::MAX {
                        match (resv, errv) {
                            (Some(rv), None) => Some(
                                RespData { id: spec_digits_val(lit) as u64, outcome: Ok(rv) },
                            ),
                            (None, Some(ev)) => Some(
                                RespData { id: spec_digits_val(lit) as u64, outcome: Err(ev) },
                            ),
                            _ => None,
                        }
                    } else {
                        None
                    }
                },
                _ => None,
            }
        },
        _ => None,
    }
}

/// What one complete line says: the single structured value it holds, as a
/// response envelope, with nothing but whitespace after it.
pub open spec fn spec_decode_line(line: Seq<u8>) -> Option<RespData> {
    match spec_parse_value(line, 0) {
        Some((d, k)) => {
            if spec_skip_ws(line, k) == line.len() {
                spec_envelope_of(d)
            } else {
                None
            }
        },
        None => None,
    }
}

/// Whether an executable optional value stands for a ghost optional value.
pub open spec fn opt_models(e: Option<JsonValue>, g: Option<JsonData>) -> bool {
    match (e, g) {
        (Some(v), Some(d)) => v.model() == d,
        (None, None) => true,
        _ => false,
    }
}

/// Whether `k` spells `id`.
pub fn is_id_key(k: &Vec<u8>) -> (r: bool)
    ensures
        r == (k@ == key_id()),
{
    if k.len() == 2 && k[0] == 0x69 && k[1] == 0x64 {
        proof {
            assert(k@ =~= key_id());
        }
        true
    } else {
        proof {
            if k@ == key_id() {
                assert(k@.len() == 2 && k@[0] == 0x69 && k@[1] == 0x64);
            }
        }
        false
    }
}

/// Whether `k` spells `result`.
pub fn is_result_key(k: &Vec<u8>) -> (r: bool)
    ensures
        r == (k@ == key_result()),
{
    if k.len() == 6 && k[0] == 0x72 && k[1] == 0x65 && k[2] == 0x73 && k[3] == 0x75
        && k[4] == 0x6c && k[5] == 0x74 {
        proof {
            assert(k@ =~= key_result());
        }
        true
    } else {
        proof {
            if k@ == key_result() {
                assert(k@.len() == 6 && k@[0] == 0x72 && k@[1] == 0x65 && k@[2] == 0x73
                    && k@[3] == 0x75 && k@[4] == 0x6c && k@[5] == 0x74);
            }
        }
        false
    }
}

/// Whether `k` spells `error`.
pub fn is_error_key(k: &Vec<u8>) -> (r: bool)
    ensures
        r == (k@ == key_error()),
{
    if k.len() == 5 && k[0] == 0x65 && k[1] == 0x72 && k[2] == 0x72 && k[3] == 0x6f
        && k[4] == 0x72 {
        proof {
            assert(k@ =~= key_error());
        }
        true
    } else {
        proof {
            if k@ == key_error() {
                assert(k@.len() == 5 && k@[0] == 0x65 && k@[1] == 0x72 && k@[2] == 0x72
                    && k@[3] == 0x6f && k@[4] == 0x72);
            }
        }
        false
    }
}

/// Reads a decoded structured value as a response envelope.
pub fn envelope_of(v: JsonValue) -> (r: Option<ResponseEnvelope>)
    ensures
        (match r {
            Some(env) => spec_envelope_of(v.model()) == Some(env.model()),
            None => spec_envelope_of(v.model()) is None,
        }),
{
    match v {
        JsonValue::Obj(mut ms) => {
            let ghost orig = ms@;
            let ghost gms = member_models(orig);
            let mut idv: Option<JsonValue> = None;
            let mut resv: Option<JsonValue> = None;
            let mut errv: Option<JsonValue> = None;
            while ms.len() > 0
                invariant
                    ms@.len() <= orig.len(),
                    gms == member_models(orig),
                    gms.len() == orig.len(),
                    ms@ == orig.subrange(0, ms@.len() as int),
                    opt_models(idv, spec_lookup(gms.skip(ms@.len() as int), key_id())),
                    opt_models(resv, spec_lookup(gms.skip(ms@.len() as int), key_result())),
                    opt_models(errv, spec_lookup(gms.skip(ms@.len() as int), key_error())),
                decreases ms@.len(),
            {
                let ghost n = ms@.len() as int;
                proof {
                    assert(gms.skip(n - 1)[0] == gms[n - 1]);
                    assert(gms.skip(n - 1).drop_first() =~= gms.skip(n));
                    crate::json::lemma_member_models_index(orig, n - 1);
                }
                let m = ms.pop().unwrap();
                proof {
                    assert(ms@ =~= orig.subrange(0, ms@.len() as int));
                    assert(m == orig.subrange(0, n)[n - 1]);
                    assert(m == orig[n - 1]);
                    assert(m == orig[n - 1]);
                    assert(m.key@ == orig[n - 1].key@);
                    assert(m.val == orig[n - 1].val);
                    assert(gms[n - 1].0 == orig[n - 1].key@);
                    assert(gms[n - 1].1 == orig[n - 1].val.model());
                    assert(m.key@ == gms.skip(n - 1)[0].0);
                    assert(m.val.model() == gms.skip(n - 1)[0].1);
                }
                if is_id_key(&m.key) {
                    idv = Some(m.val);
                } else if is_result_key(&m.key) {
                    resv = Some(m.val);
                } else if is_error_key(&m.key) {
                    errv = Some(m.val);
                }
            }
            proof {
                assert(gms.skip(0) =~= gms);
            }
            match idv {
                Some(JsonValue::Num(lit)) => {
                    match digits_to_u64(&lit) {
                        Some(n) => {
                            match (resv, errv) {
                                (Some(rv), None) => Some(
                                    ResponseEnvelope { id: n, outcome: Ok(rv) },
                                ),
                                (None, Some(ev)) => Some(
                                    ResponseEnvelope { id: n, outcome: Err(ev) },
                                ),
                                _ => None,
                            }
                        },
                        None => None,
                    }
                },
                _ => None,
            }
        },
        _ => None,
    }
}

/// Decodes one complete line as a response envelope. `None` is a
/// malformed line: it holds no single well-formed envelope.
pub fn decode_line(line: &Vec<u8>) -> (r: Option<ResponseEnvelope>)
    ensures
        (match r {
            Some(env) => spec_decode_line(line@) == Some(env.model()),
            None => spec_decode_line(line@) is None,
        }),
{
    match parse_value(line, 0) {
        Some((v, k)) => {
            let k2 = skip_ws(line, k);
            if k2 == line.len() {
                envelope_of(v)
            } else {
                None
            }
        },
        None => None,
    }
}

/// The index of the first newline at or after `i`, or the length if none.
pub open spec fn spec_nl_pos(s: Seq<u8>, i: int) -> int
    decreases s.len() - i,
{
    if 0 <= i < s.len() && s[i] != 0x0a {
        spec_nl_pos(s, i + 1)
    } else {
        i
    }
}

/// Buffers raw bytes read from the backend's output stream and hands out
/// one complete line at a time. A line is everything up to the next
/// newline byte; the newline itself is consumed. Partial reads accumulate
/// until a boundary arrives.
pub struct LineBuffer {
    buf: Vec<u8>,
}

impl View for LineBuffer {
    type V = Seq<u8>;

    closed spec fn view(&self) -> Seq<u8> {
        self.buf@
    }
}

impl LineBuffer {
    /// An empty buffer.
    pub fn new() -> (r: LineBuffer)
        ensures
            r@ == Seq::<u8>::empty(),
    {
        LineBuffer { buf: Vec::new() }
    }

    /// Appends one chunk of raw bytes, as read from the stream.
    pub fn push_chunk(&mut self, chunk: &Vec<u8>)
        ensures
            final(self)@ == old(self)@ + chunk@,
    {
        let mut j: usize = 0;
        while j < chunk.len()
            invariant
                j <= chunk.len(),
                self@ == old(self)@ + chunk@.subrange(0, j as int),
            decreases chunk.len() - j,
        {
            self.buf.push(chunk[j]);
            proof {
                assert(self@ =~= old(self)@ + chunk@.subrange(0, j + 1));
            }
            j = j + 1;
        }
        proof {
            assert(chunk@.subrange(0, chunk@.len() as int) =~= chunk@);
        }
    }

    /// Removes and returns the earliest complete line, without its
    /// newline, or `None` if no newline has arrived yet.
    pub fn take_line(&mut self) -> (r: Option<Vec<u8>>)
        ensures
            (match r {
                Some(line) => {
                    let p = spec_nl_pos(old(self)@, 0);
                    &&& p < old(self)@.len()
                    &&& line@ == old(self)@.subrange(0, p)
                    &&& final(self)@ == old(self)@.subrange(p + 1, old(self)@.len() as int)
                },
                None => {
                    &&& spec_nl_pos(old(self)@, 0) == old(self)@.len()
                    &&& final(self)@ == old(self)@
                },
            }),
    {
        let mut j: usize = 0;
        while j < self.buf.len() && self.buf[j] != 0x0a
            invariant
                j <= self.buf.len(),
                self@ == old(self)@,
                spec_nl_pos(self@, 0) == spec_nl_pos(self@, j as int),
            decreases self.buf.len() - j,
        {
            j = j + 1;
        }
        if j >= self.buf.len() {
            return None;
        }
        let tail = self.buf.split_off(j + 1);
        self.buf.truncate(j);
        let mut line = tail;
        core::mem::swap(&mut self.buf, &mut line);
        proof {
            assert(line@ =~= old(self)@.subrange(0, j as int));
        }
        Some(line)
    }
}

/// The first index at or after `i` holding a byte that is not a decimal
/// digit.
pub open spec fn spec_digit_end(s: Seq<u8>, i: int) -> int
    decreases s.len() - i,
{
    if 0 <= i < s.len() && 0x30 <= s[i] && s[i] <= 0x39 {
        spec_digit_end(s, i + 1)
    } else {
        i
    }
}

/// Whether the four bytes `"id"` (quotes included) stand at `i`.
pub open spec fn spec_id_key_at(s: Seq<u8>, i: int) -> bool {
    &&& i + 4 <= s.len()
    &&& s[i] == 0x22
    &&& s[i + 1] == 0x69
    &&& s[i + 2] == 0x64
    &&& s[i + 3] == 0x22
}

/// The id read right after a quoted `id` key: optional whitespace, a
/// colon, optional whitespace, then a plain decimal that fits 64 bits.
pub open spec fn spec_salvage_at(s: Seq<u8>, i: int) -> Option<u64> {
    let j = spec_skip_ws(s, i);
    if j < i || j >= s.len() || s[j] != 0x3a {
        None
    } else {
        let j2 = spec_skip_ws(s, j + 1);
        if j2 < j + 1 || j2 > s.len() {
            None
        } else {
            let e = spec_digit_end(s, j2);
            if j2 < e && e <= s.len() && spec_digits_val(s.subrange(j2, e)) <= u64::MAX {
                Some(spec_digits_val(s.subrange(j2, e)) as u64)
            } else {
                None
            }
        }
    }
}

/// A best-effort read of a corrupt line's id: the value after the first
/// quoted `id` key, if one follows it. It lets a malformed response be
/// failed to the call it was addressed to instead of leaving it pending.
pub open spec fn spec_salvage_id(s: Seq<u8>, i: int) -> Option<u64>
    decreases s.len() - i,
{
    if i < 0 || i + 4 > s.len() {
        None
    } else if spec_id_key_at(s, i) {
        spec_salvage_at(s, i + 4)
    } else {
        spec_salvage_id(s, i + 1)
    }
}

/// Advances past decimal digits.
fn digit_end(s: &Vec<u8>, i: usize) -> (r: usize)
    requires
        i <= s.len(),
    ensures
        r as int == spec_digit_end(s@, i as int),
        i <= r <= s.len(),
        forall|t: int| i <= t < r ==> 0x30 <= #[trigger] s@[t] && s@[t] <= 0x39,
{
    let mut j: usize = i;
    while j < s.len() && 0x30 <= s[j] && s[j] <= 0x39
        invariant
            i <= j <= s.len(),
            spec_digit_end(s@, i as int) == spec_digit_end(s@, j as int),
            forall|t: int| i <= t < j ==> 0x30 <= #[trigger] s@[t] && s@[t] <= 0x39,
        decreases s.len() - j,
    {
        j = j + 1;
    }
    j
}

/// Reads the id a corrupt line was addressed to, if it can be found.
pub fn salvage_id(line: &Vec<u8>) -> (r: Option<u64>)
    ensures
        r == spec_salvage_id(line@, 0),
{
    let mut i: usize = 0;
    loop
        invariant
            i <= line.len(),
            spec_salvage_id(line@, 0) == spec_salvage_id(line@, i as int),
        decreases line.len() - i,
    {
        if line.len() - i < 4 {
            return None;
        }
        if line[i] == 0x22 && line[i + 1] == 0x69 && line[i + 2] == 0x64 && line[i + 3]
            == 0x22 {
            let j = skip_ws(line, i + 4);
            if j >= line.len() {
                return None;
            }
            if line[j] != 0x3a {
                return None;
            }
            let j2 = skip_ws(line, j + 1);
            let e = digit_end(line, j2);
            if e <= j2 {
                return None;
            }
            let mut digits: Vec<u8> = Vec::new();
            let mut m: usize = j2;
            while m < e
                invariant
                    j2 <= m <= e <= line.len(),
                    digits@ == line@.subrange(j2 as int, m as int),
                decreases e - m,
            {
                digits.push(line[m]);
                proof {
                    assert(digits@ =~= line@.subrange(j2 as int, m + 1));
                }
                m = m + 1;
            }
            proof {
                assert(all_digits(digits@));
            }
            return digits_to_u64(&digits);
        }
        i = i + 1;
    }
}

proof fn lemma_dec_no_nl(n: int)
    ensures
        no_nl(spec_dec_u64(n)),
    decreases n,
{
    if n < 0 {
    } else if n < 10 {
        assert(no_nl(seq![(0x30 + n) as u8]));
    } else {
        lemma_dec_no_nl(n / 10);
        assert(no_nl(seq![(0x30 + n % 10) as u8]));
        lemma_no_nl_concat(spec_dec_u64(n / 10), seq![(0x30 + n % 10) as u8]);
    }
}

/// An encoded request is exactly one frame: it ends with the one and only
/// newline byte it contains, so the line framing on the other side of the
/// stream recovers exactly this message, whatever payload it carries.
pub proof fn lemma_request_is_one_line(id: u64, method: Seq<u8>, params: Option<JsonData>)
    requires
        (match params {
            Some(d) => wf_data(d),
            None => true,
        }),
    ensures
        ({
            let w = spec_encode_request(id, method, params);
            &&& w.len() > 0
            &&& w.last() == 0x0a
            &&& forall|i: int| 0 <= i < w.len() - 1 ==> (#[trigger] w[i]) != 0x0a
        }),
{
    let a = seq![0x7bu8, 0x22, 0x69, 0x64, 0x22, 0x3a];
    let b = seq![0x2cu8, 0x22, 0x6d, 0x65, 0x74, 0x68, 0x6f, 0x64, 0x22, 0x3a];
    let c = seq![0x2cu8, 0x22, 0x70, 0x61, 0x72, 0x61, 0x6d, 0x73, 0x22, 0x3a];
    let p = (match params {
        Some(d) => spec_ser(d),
        None => spec_ser(JsonData::Null),
    });
    lemma_dec_no_nl(id as int);
    lemma_ser_string_no_nl(method);
    match params {
        Some(d) => {
            lemma_ser_no_nl(d);
        },
        None => {
            assert(no_nl(seq![0x6eu8, 0x75, 0x6c, 0x6c]));
        },
    }
    assert(no_nl(a));
    assert(no_nl(b));
    assert(no_nl(c));
    lemma_no_nl_concat(a, spec_dec_u64(id as int));
    lemma_no_nl_concat(a + spec_dec_u64(id as int), b);
    lemma_no_nl_concat(a + spec_dec_u64(id as int) + b, spec_ser_string(method));
    lemma_no_nl_concat(a + spec_dec_u64(id as int) + b + spec_ser_string(method), c);
    lemma_no_nl_concat(a + spec_dec_u64(id as int) + b + spec_ser_string(method) + c, p);
    let front = a + spec_dec_u64(id as int) + b + spec_ser_string(method) + c + p;
    let w = spec_encode_request(id, method, params);
    assert(w =~= front + seq![0x7du8, 0x0a]);
    assert(w.last() == 0x0a);
    assert forall|i: int| 0 <= i < w.len() - 1 implies (#[trigger] w[i]) != 0x0a by {
        if i < front.len() {
            assert(w[i] == front[i]);
        } else {
            assert(w[i] == 0x7d);
        }
    }
}

} // verus!
