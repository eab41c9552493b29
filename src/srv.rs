//! The `example_interfaces/AddTwoInts` service: its request and response
//! types, and both sides of a call.
//!
//! The client encodes a request and collects every reply, decoding each on
//! its own; the server decodes a request, adds with two's-complement
//! wraparound, and encodes the response. Replies carry no correlation
//! identifier: the transport pairs them with their query.

use vstd::prelude::*;
use crate::cdr::{
    deserialize, dec, enc, le_bytes, le_value, lemma_le_round, pad, serialize, zeros,
    DecodingError, Kind, Val, Value,
};

verus! {

#[derive(Clone, Copy, Debug, PartialEq, Eq)]
pub struct AddTwoIntsRequest {
    pub a: i64,
    pub b: i64,
}

#[derive(Clone, Copy, Debug, PartialEq, Eq)]
pub struct AddTwoIntsResponse {
    pub sum: i64,
}

/// `a + b` wrapped into the range of `i64`.
pub open spec fn wrapped_sum(a: i64, b: i64) -> i64 {
    if a + b > i64::MAX {
        (a + b - 0x1_0000_0000_0000_0000) as i64
    } else if a + b < i64::MIN {
        (a + b + 0x1_0000_0000_0000_0000) as i64
    } else {
        (a + b) as i64
    }
}

/// The 16 bytes of a request: `a`, then `b`, little-endian.
pub open spec fn request_bytes(r: AddTwoIntsRequest) -> Seq<u8> {
    le_bytes(r.a as u64, 8) + le_bytes(r.b as u64, 8)
}

/// The 8 bytes of a response: `sum`, little-endian.
pub open spec fn response_bytes(r: AddTwoIntsResponse) -> Seq<u8> {
    le_bytes(r.sum as u64, 8)
}

/// The request whose 16 bytes start `s`.
pub open spec fn request_at(s: Seq<u8>) -> AddTwoIntsRequest {
    AddTwoIntsRequest {
        a: le_value(s.subrange(0, 8), 8) as i64,
        b: le_value(s.subrange(8, 16), 8) as i64,
    }
}

/// The response whose 8 bytes start `s`.
pub open spec fn response_at(s: Seq<u8>) -> AddTwoIntsResponse {
    AddTwoIntsResponse { sum: le_value(s.subrange(0, 8), 8) as i64 }
}

pub open spec fn answer(r: AddTwoIntsRequest) -> AddTwoIntsResponse {
    AddTwoIntsResponse { sum: wrapped_sum(r.a, r.b) }
}

/// What the server sends back for a request payload: nothing when the
/// payload does not decode.
pub open spec fn served(payload: Seq<u8>) -> Option<Seq<u8>> {
    if payload.len() >= 16 {
        Some(response_bytes(answer(request_at(payload))))
    } else {
        None
    }
}

/// `k` is a struct whose fields are `n` signed 64-bit integers.
pub open spec fn is_i64_schema(k: Kind, n: nat) -> bool {
    &&& k is Struct
    &&& k->Struct_0@.len() == n
    &&& forall|i: int| 0 <= i < n ==> (#[trigger] k->Struct_0@[i]) is I64
}

impl AddTwoIntsRequest {
    pub open spec fn model(self) -> Val {
        Val::Struct(seq![Val::I64(self.a), Val::I64(self.b)])
    }

    pub fn schema() -> (k: Kind)
        ensures
            is_i64_schema(k, 2),
    {
        let mut ks: Vec<Kind> = Vec::new();
        ks.push(Kind::I64);
        ks.push(Kind::I64);
        Kind::Struct(ks)
    }

    pub fn to_value(&self) -> (v: Value)
        ensures
            v@ == self.model(),
    {
        let mut fs: Vec<Value> = Vec::new();
        fs.push(Value::I64(self.a));
        fs.push(Value::I64(self.b));
        let v = Value::Struct(fs);
        assert(fs@[0]@ == Val::I64(self.a));
        assert(fs@[1]@ == Val::I64(self.b));
        assert(v@->Struct_0 =~= self.model()->Struct_0);
        v
    }
}

impl AddTwoIntsResponse {
    pub open spec fn model(self) -> Val {
        Val::Struct(seq![Val::I64(self.sum)])
    }

    pub fn schema() -> (k: Kind)
        ensures
            is_i64_schema(k, 1),
    {
        let mut ks: Vec<Kind> = Vec::new();
        ks.push(Kind::I64);
        Kind::Struct(ks)
    }

    pub fn to_value(&self) -> (v: Value)
        ensures
            v@ == self.model(),
    {
        let mut fs: Vec<Value> = Vec::new();
        fs.push(Value::I64(self.sum));
        let v = Value::Struct(fs);
        assert(fs@[0]@ == Val::I64(self.sum));
        assert(v@->Struct_0 =~= self.model()->Struct_0);
        v
    }
}

proof fn lemma_dec_i64(k: Kind, s: Seq<u8>, pos: nat)
    requires
        k is I64,
        pos % 8 == 0,
        pos <= s.len(),
    ensures
        dec(k, s, pos) == (if pos + 8 <= s.len() {
            Ok::<(Val, nat), DecodingError>(
                (
                    Val::I64(le_value(s.subrange(pos as int, (pos + 8) as int), 8) as i64),
                    pos + 8,
                ),
            )
        } else {
            Err::<(Val, nat), DecodingError>(DecodingError::TruncatedBuffer)
        }),
{
    assert(pad(pos, 8) == 0);
}

proof fn lemma_enc_request(k: Kind, r: AddTwoIntsRequest)
    requires
        is_i64_schema(k, 2),
    ensures
        crate::cdr::conforms(k, r.model()),
        enc(k, r.model(), 0) == request_bytes(r),
{
    let ks = k->Struct_0@;
    let vs = r.model()->Struct_0;
    let k1 = ks.drop_first();
    let v1 = vs.drop_first();
    assert(ks[0] is I64 && ks[1] is I64);
    assert(k1[0] == ks[1]);
    assert(v1[0] == vs[1]);
    assert(pad(0, 8) == 0 && pad(8, 8) == 0);
    assert(zeros(0) =~= seq![]);
    assert(enc(ks[0], vs[0], 0) =~= le_bytes(r.a as u64, 8));
    assert(enc(k1[0], v1[0], 8) =~= le_bytes(r.b as u64, 8));
    assert(crate::cdr::enc_fields(k1.drop_first(), v1.drop_first(), 16) =~= seq![]);
    assert(crate::cdr::fields_conform(k1.drop_first(), v1.drop_first()));
    assert(crate::cdr::conforms(k1[0], v1[0]));
    assert(crate::cdr::conforms(ks[0], vs[0]));
    assert(crate::cdr::fields_conform(k1, v1));
    assert(crate::cdr::enc_fields(k1, v1, 8) =~= le_bytes(r.b as u64, 8));
    assert(enc(k, r.model(), 0) =~= request_bytes(r));
}

proof fn lemma_enc_response(k: Kind, r: AddTwoIntsResponse)
    requires
        is_i64_schema(k, 1),
    ensures
        crate::cdr::conforms(k, r.model()),
        enc(k, r.model(), 0) == response_bytes(r),
{
    let ks = k->Struct_0@;
    let vs = r.model()->Struct_0;
    assert(ks[0] is I64);
    assert(pad(0, 8) == 0);
    assert(zeros(0) =~= seq![]);
    assert(enc(ks[0], vs[0], 0) =~= le_bytes(r.sum as u64, 8));
    assert(crate::cdr::enc_fields(ks.drop_first(), vs.drop_first(), 8) =~= seq![]);
    assert(crate::cdr::fields_conform(ks.drop_first(), vs.drop_first()));
    assert(crate::cdr::conforms(ks[0], vs[0]));
    assert(enc(k, r.model(), 0) =~= response_bytes(r));
}

proof fn lemma_dec_request(k: Kind, s: Seq<u8>)
    requires
        is_i64_schema(k, 2),
    ensures
        dec(k, s, 0) == (if 16 <= s.len() {
            Ok::<(Val, nat), DecodingError>((request_at(s).model(), 16))
        } else {
            Err::<(Val, nat), DecodingError>(DecodingError::TruncatedBuffer)
        }),
{
    let ks = k->Struct_0@;
    let k1 = ks.drop_first();
    assert(ks[0] is I64 && ks[1] is I64);
    assert(k1[0] == ks[1]);
    assert(k1.drop_first().len() == 0);
    assert(crate::cdr::dec_fields(k1.drop_first(), s, 16) == Ok::<(Seq<Val>, nat), DecodingError>(
        (seq![], 16),
    ));
    let r0 = crate::cdr::dec_fields(ks, s, 0);
    let r1 = crate::cdr::dec_fields(k1, s, 8);
    let trunc = Err::<(Seq<Val>, nat), DecodingError>(DecodingError::TruncatedBuffer);
    lemma_dec_i64(ks[0], s, 0);
    if 8 > s.len() {
        assert(r0 == trunc);
    } else {
        lemma_dec_i64(k1[0], s, 8);
        if 16 > s.len() {
            assert(r1 == trunc);
            assert(r0 == trunc);
        } else {
            let q = request_at(s);
            assert(seq![Val::I64(q.b)] + seq![] =~= seq![Val::I64(q.b)]);
            assert(r1 == Ok::<(Seq<Val>, nat), DecodingError>((seq![Val::I64(q.b)], 16)));
            assert(seq![Val::I64(q.a)] + seq![Val::I64(q.b)] =~= q.model()->Struct_0);
            assert(r0 == Ok::<(Seq<Val>, nat), DecodingError>((q.model()->Struct_0, 16)));
        }
    }
}

proof fn lemma_dec_response(k: Kind, s: Seq<u8>)
    requires
        is_i64_schema(k, 1),
    ensures
        dec(k, s, 0) == (if 8 <= s.len() {
            Ok::<(Val, nat), DecodingError>((response_at(s).model(), 8))
        } else {
            Err::<(Val, nat), DecodingError>(DecodingError::TruncatedBuffer)
        }),
{
    let ks = k->Struct_0@;
    assert(ks[0] is I64);
    assert(ks.drop_first().len() == 0);
    assert(crate::cdr::dec_fields(ks.drop_first(), s, 8) == Ok::<(Seq<Val>, nat), DecodingError>(
        (seq![], 8),
    ));
    lemma_dec_i64(ks[0], s, 0);
    if 8 <= s.len() {
        let q = response_at(s);
        assert(seq![Val::I64(q.sum)] + seq![] =~= q.model()->Struct_0);
    }
}

/// Encodes a request: 16 bytes, `a` then `b`.
pub fn encode_request(r: &AddTwoIntsRequest) -> (b: Vec<u8>)
    ensures
        b@ == request_bytes(*r),
{
    let k = AddTwoIntsRequest::schema();
    proof {
        lemma_enc_request(k, *r);
    }
    match serialize(&r.to_value(), &k) {
        Ok(b) => b,
        Err(_) => Vec::new(),
    }
}

/// Encodes a response: 8 bytes, `sum`.
pub fn encode_response(r: &AddTwoIntsResponse) -> (b: Vec<u8>)
    ensures
        b@ == response_bytes(*r),
{
    let k = AddTwoIntsResponse::schema();
    proof {
        lemma_enc_response(k, *r);
    }
    match serialize(&r.to_value(), &k) {
        Ok(b) => b,
        Err(_) => Vec::new(),
    }
}

/// Reads the integers of a decoded struct of `n` `I64` fields.
fn i64_fields(v: &Value, n: usize) -> (r: Vec<i64>)
    requires
        v@ is Struct,
        v@->Struct_0.len() == n,
        forall|i: int| 0 <= i < n ==> (#[trigger] v@->Struct_0[i]) is I64,
    ensures
        r@.len() == n,
        forall|i: int| 0 <= i < n ==> Val::I64(#[trigger] r@[i]) == v@->Struct_0[i],
{
    let mut r: Vec<i64> = Vec::new();
    match v {
        Value::Struct(fs) => {
            let mut i: usize = 0;
            while i < n
                invariant
                    i <= n,
                    fs.len() == n,
                    v@->Struct_0.len() == n,
                    forall|j: int| 0 <= j < n ==> (#[trigger] v@->Struct_0[j]) == fs@[j]@,
                    forall|j: int| 0 <= j < n ==> (#[trigger] v@->Struct_0[j]) is I64,
                    r@.len() == i,
                    forall|j: int| 0 <= j < i ==> Val::I64(#[trigger] r@[j]) == v@->Struct_0[j],
                decreases n - i,
            {
                let x = match &fs[i] {
                    Value::I64(x) => *x,
                    _ => 0,
                };
                assert(v@->Struct_0[i as int] == fs@[i as int]@);
                r.push(x);
                i += 1;
            }
        },
        _ => {},
    }
    r
}

/// Decodes a request from the start of `data`.
pub fn decode_request(data: &[u8]) -> (r: Result<AddTwoIntsRequest, DecodingError>)
    ensures
        data@.len() >= 16 ==> r == Ok::<AddTwoIntsRequest, DecodingError>(request_at(data@)),
        data@.len() < 16 ==> r == Err::<AddTwoIntsRequest, DecodingError>(
            DecodingError::TruncatedBuffer,
        ),
{
    let k = AddTwoIntsRequest::schema();
    proof {
        lemma_dec_request(k, data@);
    }
    match deserialize(data, &k) {
        Ok(v) => {
            let xs = i64_fields(&v, 2);
            Ok(AddTwoIntsRequest { a: xs[0], b: xs[1] })
        },
        Err(e) => Err(e),
    }
}

/// Decodes a response from the start of `data`.
pub fn decode_response(data: &[u8]) -> (r: Result<AddTwoIntsResponse, DecodingError>)
    ensures
        data@.len() >= 8 ==> r == Ok::<AddTwoIntsResponse, DecodingError>(response_at(data@)),
        data@.len() < 8 ==> r == Err::<AddTwoIntsResponse, DecodingError>(
            DecodingError::TruncatedBuffer,
        ),
{
    let k = AddTwoIntsResponse::schema();
    proof {
        lemma_dec_response(k, data@);
    }
    match deserialize(data, &k) {
        Ok(v) => {
            let xs = i64_fields(&v, 1);
            Ok(AddTwoIntsResponse { sum: xs[0] })
        },
        Err(e) => Err(e),
    }
}

/// Computes the response to a request: `a + b` with wraparound.
pub fn add_two_ints(r: &AddTwoIntsRequest) -> (s: AddTwoIntsResponse)
    ensures
        s == answer(*r),
{
    AddTwoIntsResponse { sum: r.a.wrapping_add(r.b) }
}

/// Answers one request payload: decodes it, adds, and encodes the response.
/// A payload that does not decode gets no reply.
pub fn handle_request(payload: &[u8]) -> (r: Option<Vec<u8>>)
    ensures
        match served(payload@) {
            Some(b) => r is Some && r->Some_0@ == b,
            None => r is None,
        },
{
    match decode_request(payload) {
        Ok(req) => Some(encode_response(&add_two_ints(&req))),
        Err(_) => None,
    }
}

/// What a client has collected from the replies to one call: the responses
/// that decoded, in order of arrival, and the decoding failures.
#[derive(Debug, PartialEq, Eq)]
pub struct Replies {
    pub responses: Vec<AddTwoIntsResponse>,
    pub failures: Vec<DecodingError>,
}

impl Replies {
    /// No replies yet, which is also a valid final outcome.
    pub fn new() -> (r: Replies)
        ensures
            r.responses@.len() == 0,
            r.failures@.len() == 0,
    {
        Replies { responses: Vec::new(), failures: Vec::new() }
    }

    /// Takes in one reply payload; a failure is recorded and collection goes
    /// on.
    pub fn accept(&mut self, payload: &[u8])
        ensures
            payload@.len() >= 8 ==> final(self).responses@ == old(self).responses@.push(
                response_at(payload@),
            ) && final(self).failures@ == old(self).failures@,
            payload@.len() < 8 ==> final(self).responses@ == old(self).responses@
                && final(self).failures@ == old(self).failures@.push(
                DecodingError::TruncatedBuffer,
            ),
    {
        match decode_response(payload) {
            Ok(r) => self.responses.push(r),
            Err(e) => self.failures.push(e),
        }
    }
}

proof fn lemma_i64_round(x: i64)
    ensures
        le_value(le_bytes(x as u64, 8), 8) as i64 == x,
{
    lemma_le_round(x as u64, 8);
    assert((x as u64) as i64 == x) by (bit_vector);
}

/// A request decodes to what was encoded.
pub proof fn lemma_request_round_trip(r: AddTwoIntsRequest)
    ensures
        request_bytes(r).len() == 16,
        request_at(request_bytes(r)) == r,
{
    let s = request_bytes(r);
    assert(s.subrange(0, 8) =~= le_bytes(r.a as u64, 8));
    assert(s.subrange(8, 16) =~= le_bytes(r.b as u64, 8));
    lemma_i64_round(r.a);
    lemma_i64_round(r.b);
}

/// A response decodes to what was encoded.
pub proof fn lemma_response_round_trip(r: AddTwoIntsResponse)
    ensures
        response_bytes(r).len() == 8,
        response_at(response_bytes(r)) == r,
{
    assert(response_bytes(r).subrange(0, 8) =~= response_bytes(r));
    lemma_i64_round(r.sum);
}

/// A call end to end: the server answers the bytes of request `(a, b)`, and
/// the client decodes from its reply the sum `a + b`, wrapped to `i64`.
/// The answer depends on the request payload alone, so calls made at the
/// same time cannot mix.
pub proof fn lemma_end_to_end(a: i64, b: i64)
    ensures
        served(request_bytes(AddTwoIntsRequest { a, b })) == Some(
            response_bytes(AddTwoIntsResponse { sum: wrapped_sum(a, b) }),
        ),
        response_at(response_bytes(AddTwoIntsResponse { sum: wrapped_sum(a, b) })).sum
            == wrapped_sum(a, b),
{
    lemma_request_round_trip(AddTwoIntsRequest { a, b });
    lemma_response_round_trip(AddTwoIntsResponse { sum: wrapped_sum(a, b) });
}

/// Any number of calls, in any order or at once: each request payload is
/// answered with the sum of its own two integers, whatever the others hold.
pub proof fn lemma_calls_independent(reqs: Seq<AddTwoIntsRequest>)
    ensures
        forall|i: int|
            0 <= i < reqs.len() ==> served(request_bytes(#[trigger] reqs[i])) == Some(
                response_bytes(answer(reqs[i])),
            ),
{
    assert forall|i: int| 0 <= i < reqs.len() implies served(request_bytes(#[trigger] reqs[i]))
        == Some(response_bytes(answer(reqs[i]))) by {
        lemma_request_round_trip(reqs[i]);
    }
}

} // verus!
