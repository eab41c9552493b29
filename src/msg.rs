//! Message types of the `cmd_vel` topic: `geometry_msgs/Vector3` and
//! `geometry_msgs/Twist`. Doubles are held as their IEEE-754 bit patterns
//! (`f64::to_bits`), which is what travels on the wire.

use vstd::prelude::*;
use crate::cdr::{
    deserialize, dec, enc, le_bytes, le_value, pad, serialize, zeros, DecodingError, Kind, Val,
    Value,
};

verus! {

#[derive(Clone, Copy, Debug, PartialEq)]
pub struct Vector3 {
    pub x: u64,
    pub y: u64,
    pub z: u64,
}

#[derive(Clone, Copy, Debug, PartialEq)]
pub struct Twist {
    pub linear: Vector3,
    pub angular: Vector3,
}

/// `k` describes `Vector3 { x: F64, y: F64, z: F64 }`.
pub open spec fn is_vector3_schema(k: Kind) -> bool {
    &&& k is Struct
    &&& k->Struct_0@.len() == 3
    &&& k->Struct_0@[0] is F64
    &&& k->Struct_0@[1] is F64
    &&& k->Struct_0@[2] is F64
}

/// `k` describes `Twist { linear: Struct(Vector3), angular: Struct(Vector3) }`.
pub open spec fn is_twist_schema(k: Kind) -> bool {
    &&& k is Struct
    &&& k->Struct_0@.len() == 2
    &&& is_vector3_schema(k->Struct_0@[0])
    &&& is_vector3_schema(k->Struct_0@[1])
}

/// The 24 bytes of a `Vector3`: three little-endian doubles.
pub open spec fn vector3_bytes(v: Vector3) -> Seq<u8> {
    le_bytes(v.x, 8) + le_bytes(v.y, 8) + le_bytes(v.z, 8)
}

/// The 48 bytes of a `Twist`: `linear` at offset 0, `angular` at offset 24.
pub open spec fn twist_bytes(t: Twist) -> Seq<u8> {
    vector3_bytes(t.linear) + vector3_bytes(t.angular)
}

/// The `Vector3` whose encoding starts at offset `pos` of `s`.
pub open spec fn vector3_at(s: Seq<u8>, pos: int) -> Vector3 {
    Vector3 {
        x: le_value(s.subrange(pos, pos + 8), 8),
        y: le_value(s.subrange(pos + 8, pos + 16), 8),
        z: le_value(s.subrange(pos + 16, pos + 24), 8),
    }
}

impl Vector3 {
    pub open spec fn model(self) -> Val {
        Val::Struct(seq![Val::F64(self.x), Val::F64(self.y), Val::F64(self.z)])
    }

    pub fn schema() -> (k: Kind)
        ensures
            is_vector3_schema(k),
    {
        Kind::Struct(vec![Kind::F64, Kind::F64, Kind::F64])
    }

    pub fn to_value(&self) -> (v: Value)
        ensures
            v@ == self.model(),
    {
        let mut fs: Vec<Value> = Vec::new();
        fs.push(Value::F64(self.x));
        fs.push(Value::F64(self.y));
        fs.push(Value::F64(self.z));
        let v = Value::Struct(fs);
        assert(fs@[0]@ == Val::F64(self.x));
        assert(fs@[1]@ == Val::F64(self.y));
        assert(fs@[2]@ == Val::F64(self.z));
        assert(v@->Struct_0 =~= self.model()->Struct_0);
        v
    }
}

impl Twist {
    pub open spec fn model(self) -> Val {
        Val::Struct(seq![self.linear.model(), self.angular.model()])
    }

    pub fn schema() -> (k: Kind)
        ensures
            is_twist_schema(k),
    {
        Kind::Struct(vec![Vector3::schema(), Vector3::schema()])
    }

    pub fn to_value(&self) -> (v: Value)
        ensures
            v@ == self.model(),
    {
        let mut fs: Vec<Value> = Vec::new();
        fs.push(self.linear.to_value());
        fs.push(self.angular.to_value());
        let v = Value::Struct(fs);
        assert(v@->Struct_0 =~= self.model()->Struct_0);
        v
    }
}

proof fn lemma_enc_vector3(k: Kind, v: Vector3, pos: nat)
    requires
        is_vector3_schema(k),
        pos % 8 == 0,
    ensures
        crate::cdr::conforms(k, v.model()),
        enc(k, v.model(), pos) == vector3_bytes(v),
{
    let ks = k->Struct_0@;
    let vs = v.model()->Struct_0;
    assert(pad(pos, 8) == 0);
    assert(pad(pos + 8, 8) == 0);
    assert(pad(pos + 16, 8) == 0);
    assert(zeros(0) =~= seq![]);
    let e0 = enc(ks[0], vs[0], pos);
    let e1 = enc(ks[1], vs[1], pos + 8);
    let e2 = enc(ks[2], vs[2], pos + 16);
    assert(e0 =~= le_bytes(v.x, 8));
    assert(e1 =~= le_bytes(v.y, 8));
    assert(e2 =~= le_bytes(v.z, 8));
    let t2 = ks.drop_first().drop_first();
    let w2 = vs.drop_first().drop_first();
    assert(t2[0] == ks[2]);
    assert(w2[0] == vs[2]);
    assert(ks.drop_first()[0] == ks[1]);
    assert(vs.drop_first()[0] == vs[1]);
    assert(t2.drop_first().len() == 0);
    assert(w2.drop_first().len() == 0);
    assert(crate::cdr::enc_fields(t2.drop_first(), w2.drop_first(), pos + 24) =~= seq![]);
    assert(crate::cdr::fields_conform(t2.drop_first(), w2.drop_first()));
    assert(crate::cdr::conforms(t2[0], w2[0]));
    assert(crate::cdr::conforms(ks[0], vs[0]));
    assert(crate::cdr::conforms(ks[1], vs[1]));
    assert(crate::cdr::enc_fields(t2, w2, pos + 16) =~= e2);
    assert(crate::cdr::enc_fields(ks.drop_first(), vs.drop_first(), pos + 8) =~= e1 + e2);
    assert(enc(k, v.model(), pos) =~= vector3_bytes(v));
    assert(crate::cdr::fields_conform(t2, w2));
    assert(ks.drop_first().drop_first() == t2);
    assert(crate::cdr::fields_conform(ks.drop_first(), vs.drop_first()));
    assert(crate::cdr::fields_conform(ks, vs));
}

proof fn lemma_dec_f64(k: Kind, s: Seq<u8>, pos: nat)
    requires
        k is F64,
        pos % 8 == 0,
        pos <= s.len(),
    ensures
        dec(k, s, pos) == (if pos + 8 <= s.len() {
            Ok::<(Val, nat), DecodingError>(
                (Val::F64(le_value(s.subrange(pos as int, (pos + 8) as int), 8)), pos + 8),
            )
        } else {
            Err::<(Val, nat), DecodingError>(DecodingError::TruncatedBuffer)
        }),
{
    assert(pad(pos, 8) == 0);
}

proof fn lemma_dec_vector3(k: Kind, s: Seq<u8>, pos: nat)
    requires
        is_vector3_schema(k),
        pos % 8 == 0,
        pos <= s.len(),
    ensures
        dec(k, s, pos) == (if pos + 24 <= s.len() {
            Ok::<(Val, nat), DecodingError>((vector3_at(s, pos as int).model(), pos + 24))
        } else {
            Err::<(Val, nat), DecodingError>(DecodingError::TruncatedBuffer)
        }),
{
    let ks = k->Struct_0@;
    let k1 = ks.drop_first();
    let k2 = k1.drop_first();
    let k3 = k2.drop_first();
    assert(k1[0] == ks[1]);
    assert(k2[0] == ks[2]);
    assert(k3.len() == 0);
    assert(crate::cdr::dec_fields(k3, s, pos + 24) == Ok::<(Seq<Val>, nat), DecodingError>(
        (seq![], pos + 24),
    ));
    let r0 = crate::cdr::dec_fields(ks, s, pos);
    let r1 = crate::cdr::dec_fields(k1, s, pos + 8);
    let r2 = crate::cdr::dec_fields(k2, s, pos + 16);
    let trunc = Err::<(Seq<Val>, nat), DecodingError>(DecodingError::TruncatedBuffer);
    lemma_dec_f64(ks[0], s, pos);
    if pos + 8 > s.len() {
        assert(r0 == trunc);
    } else {
        lemma_dec_f64(k1[0], s, pos + 8);
        if pos + 16 > s.len() {
            assert(r1 == trunc);
            assert(r0 == trunc);
        } else {
            lemma_dec_f64(k2[0], s, pos + 16);
            if pos + 24 > s.len() {
                assert(r2 == trunc);
                assert(r1 == trunc);
                assert(r0 == trunc);
            } else {
                let v = vector3_at(s, pos as int);
                assert(seq![Val::F64(v.z)] + seq![] =~= seq![Val::F64(v.z)]);
                assert(r2 == Ok::<(Seq<Val>, nat), DecodingError>(
                    (seq![Val::F64(v.z)], pos + 24),
                ));
                assert(seq![Val::F64(v.y)] + seq![Val::F64(v.z)] =~= seq![
                    Val::F64(v.y),
                    Val::F64(v.z),
                ]);
                assert(r1 == Ok::<(Seq<Val>, nat), DecodingError>(
                    (seq![Val::F64(v.y), Val::F64(v.z)], pos + 24),
                ));
                assert(seq![Val::F64(v.x)] + seq![Val::F64(v.y), Val::F64(v.z)]
                    =~= v.model()->Struct_0);
                assert(r0 == Ok::<(Seq<Val>, nat), DecodingError>(
                    (v.model()->Struct_0, pos + 24),
                ));
            }
        }
    }
}

proof fn lemma_dec_twist(k: Kind, s: Seq<u8>)
    requires
        is_twist_schema(k),
    ensures
        dec(k, s, 0) == (if 48 <= s.len() {
            Ok::<(Val, nat), DecodingError>(
                (Twist { linear: vector3_at(s, 0), angular: vector3_at(s, 24) }.model(), 48),
            )
        } else {
            Err::<(Val, nat), DecodingError>(DecodingError::TruncatedBuffer)
        }),
{
    let ks = k->Struct_0@;
    let k1 = ks.drop_first();
    let k2 = k1.drop_first();
    assert(k1[0] == ks[1]);
    assert(k2.len() == 0);
    assert(crate::cdr::dec_fields(k2, s, 48) == Ok::<(Seq<Val>, nat), DecodingError>(
        (seq![], 48),
    ));
    let r0 = crate::cdr::dec_fields(ks, s, 0);
    let r1 = crate::cdr::dec_fields(k1, s, 24);
    let trunc = Err::<(Seq<Val>, nat), DecodingError>(DecodingError::TruncatedBuffer);
    lemma_dec_vector3(ks[0], s, 0);
    if 24 > s.len() {
        assert(r0 == trunc);
    } else {
        lemma_dec_vector3(k1[0], s, 24);
        if 48 > s.len() {
            assert(r1 == trunc);
            assert(r0 == trunc);
        } else {
            let a = vector3_at(s, 0).model();
            let b = vector3_at(s, 24).model();
            assert(seq![b] + seq![] =~= seq![b]);
            assert(r1 == Ok::<(Seq<Val>, nat), DecodingError>((seq![b], 48)));
            assert(seq![a] + seq![b] =~= seq![a, b]);
            assert(r0 == Ok::<(Seq<Val>, nat), DecodingError>((seq![a, b], 48)));
        }
    }
}

proof fn lemma_enc_twist(k: Kind, t: Twist)
    requires
        is_twist_schema(k),
    ensures
        crate::cdr::conforms(k, t.model()),
        enc(k, t.model(), 0) == twist_bytes(t),
{
    let ks = k->Struct_0@;
    let vs = t.model()->Struct_0;
    let k1 = ks.drop_first();
    let v1 = vs.drop_first();
    assert(k1[0] == ks[1]);
    assert(v1[0] == vs[1]);
    lemma_enc_vector3(ks[0], t.linear, 0);
    lemma_enc_vector3(k1[0], t.angular, 24);
    assert(crate::cdr::enc_fields(k1.drop_first(), v1.drop_first(), 48) =~= seq![]);
    assert(crate::cdr::fields_conform(k1.drop_first(), v1.drop_first()));
    assert(crate::cdr::fields_conform(k1, v1));
    assert(crate::cdr::enc_fields(k1, v1, 24) =~= vector3_bytes(t.angular));
}

/// Encodes a `Vector3`: 24 bytes, three little-endian doubles.
pub fn encode_vector3(v: &Vector3) -> (r: Vec<u8>)
    ensures
        r@ == vector3_bytes(*v),
{
    let k = Vector3::schema();
    proof {
        lemma_enc_vector3(k, *v, 0);
    }
    match serialize(&v.to_value(), &k) {
        Ok(b) => b,
        Err(_) => Vec::new(),
    }
}

/// Encodes a `Twist`: 48 bytes, `linear` then `angular` from offset 24 on,
/// with no padding between them.
pub fn encode_twist(t: &Twist) -> (r: Vec<u8>)
    ensures
        r@ == twist_bytes(*t),
        r@.len() == 48,
        r@.subrange(24, 48) == vector3_bytes(t.angular),
{
    let k = Twist::schema();
    proof {
        lemma_enc_twist(k, *t);
    }
    let r = match serialize(&t.to_value(), &k) {
        Ok(b) => b,
        Err(_) => Vec::new(),
    };
    assert(r@.subrange(24, 48) =~= vector3_bytes(t.angular));
    r
}

pub open spec fn is_vector3_val(v: Val) -> bool {
    &&& v is Struct
    &&& v->Struct_0.len() == 3
    &&& v->Struct_0[0] is F64
    &&& v->Struct_0[1] is F64
    &&& v->Struct_0[2] is F64
}

/// Reads the three doubles of a decoded `Vector3`.
fn vector3_of(v: &Value) -> (r: Vector3)
    requires
        is_vector3_val(v@),
    ensures
        r.model() == v@,
{
    match v {
        Value::Struct(fs) => {
            assert(fs@[0]@ == v@->Struct_0[0]);
            assert(fs@[1]@ == v@->Struct_0[1]);
            assert(fs@[2]@ == v@->Struct_0[2]);
            let x = match &fs[0] {
                Value::F64(b) => *b,
                _ => 0,
            };
            let y = match &fs[1] {
                Value::F64(b) => *b,
                _ => 0,
            };
            let z = match &fs[2] {
                Value::F64(b) => *b,
                _ => 0,
            };
            let r = Vector3 { x, y, z };
            assert(r.model()->Struct_0 =~= v@->Struct_0);
            r
        },
        _ => Vector3 { x: 0, y: 0, z: 0 },
    }
}

/// Reads the two vectors of a decoded `Twist`.
fn twist_of(v: &Value) -> (r: Twist)
    requires
        v@ is Struct,
        v@->Struct_0.len() == 2,
        is_vector3_val(v@->Struct_0[0]),
        is_vector3_val(v@->Struct_0[1]),
    ensures
        r.model() == v@,
{
    match v {
        Value::Struct(fs) => {
            assert(fs@[0]@ == v@->Struct_0[0]);
            assert(fs@[1]@ == v@->Struct_0[1]);
            let r = Twist { linear: vector3_of(&fs[0]), angular: vector3_of(&fs[1]) };
            assert(r.model()->Struct_0 =~= v@->Struct_0);
            r
        },
        _ => Twist { linear: Vector3 { x: 0, y: 0, z: 0 }, angular: Vector3 { x: 0, y: 0, z: 0 } },
    }
}

/// Decodes a `Vector3` from the start of `data`.
pub fn decode_vector3(data: &[u8]) -> (r: Result<Vector3, DecodingError>)
    ensures
        data@.len() >= 24 ==> r == Ok::<Vector3, DecodingError>(vector3_at(data@, 0)),
        data@.len() < 24 ==> r == Err::<Vector3, DecodingError>(DecodingError::TruncatedBuffer),
{
    let k = Vector3::schema();
    proof {
        lemma_dec_vector3(k, data@, 0);
    }
    match deserialize(data, &k) {
        Ok(v) => Ok(vector3_of(&v)),
        Err(e) => Err(e),
    }
}

/// Decodes a `Twist` from the start of `data`.
pub fn decode_twist(data: &[u8]) -> (r: Result<Twist, DecodingError>)
    ensures
        data@.len() >= 48 ==> r == Ok::<Twist, DecodingError>(
            Twist { linear: vector3_at(data@, 0), angular: vector3_at(data@, 24) },
        ),
        data@.len() < 48 ==> r == Err::<Twist, DecodingError>(DecodingError::TruncatedBuffer),
{
    let k = Twist::schema();
    proof {
        lemma_dec_twist(k, data@);
    }
    match deserialize(data, &k) {
        Ok(v) => Ok(twist_of(&v)),
        Err(e) => Err(e),
    }
}

/// The velocity command that the publisher sends: forward speed
/// `linear_x` and turn rate `angular_z` (bit patterns of doubles), every
/// other component zero.
pub fn cmd_vel(linear_x: u64, angular_z: u64) -> (t: Twist)
    ensures
        t == (Twist {
            linear: Vector3 { x: linear_x, y: 0, z: 0 },
            angular: Vector3 { x: 0, y: 0, z: angular_z },
        }),
{
    Twist {
        linear: Vector3 { x: linear_x, y: 0, z: 0 },
        angular: Vector3 { x: 0, y: 0, z: angular_z },
    }
}

/// A `Twist` decodes to what was encoded.
pub proof fn lemma_twist_round_trip(t: Twist)
    ensures
        twist_bytes(t).len() == 48,
        vector3_at(twist_bytes(t), 0) == t.linear,
        vector3_at(twist_bytes(t), 24) == t.angular,
{
    let s = twist_bytes(t);
    assert(s.subrange(0, 8) =~= le_bytes(t.linear.x, 8));
    assert(s.subrange(8, 16) =~= le_bytes(t.linear.y, 8));
    assert(s.subrange(16, 24) =~= le_bytes(t.linear.z, 8));
    assert(s.subrange(24, 32) =~= le_bytes(t.angular.x, 8));
    assert(s.subrange(32, 40) =~= le_bytes(t.angular.y, 8));
    assert(s.subrange(40, 48) =~= le_bytes(t.angular.z, 8));
    crate::cdr::lemma_le_round(t.linear.x, 8);
    crate::cdr::lemma_le_round(t.linear.y, 8);
    crate::cdr::lemma_le_round(t.linear.z, 8);
    crate::cdr::lemma_le_round(t.angular.x, 8);
    crate::cdr::lemma_le_round(t.angular.y, 8);
    crate::cdr::lemma_le_round(t.angular.z, 8);
}

} // verus!
