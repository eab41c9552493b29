//! Little-endian CDR encoding and decoding, driven by a schema descriptor.
//!
//! Every primitive of `S` bytes is written at an offset, counted from the
//! start of the whole message, that is a multiple of `S`; zero bytes are
//! inserted to reach it. Nested structs keep the same running offset.
//! Floating-point values travel as their IEEE-754 bit patterns.

use vstd::prelude::*;
use vstd::utf8::valid_utf8;

verus! {

/// The kind of a field: a closed, recursively composable set.
#[derive(Debug, PartialEq)]
pub enum Kind {
    Bool,
    I8,
    U8,
    I16,
    U16,
    I32,
    U32,
    I64,
    U64,
    /// An IEEE-754 single, carried as its bit pattern.
    F32,
    /// An IEEE-754 double, carried as its bit pattern.
    F64,
    Str,
    /// Exactly `n` elements back to back, with no count prefix.
    FixedArray(Box<Kind>, usize),
    /// A `u32` element count, then the elements.
    Sequence(Box<Kind>),
    /// The fields of a schema, in declared order.
    Struct(Vec<Kind>),
}

/// An instance of some kind.
#[derive(Debug, PartialEq)]
pub enum Value {
    Bool(bool),
    I8(i8),
    U8(u8),
    I16(i16),
    U16(u16),
    I32(i32),
    U32(u32),
    I64(i64),
    U64(u64),
    F32(u32),
    F64(u64),
    /// The UTF-8 bytes of a string, without terminator.
    Str(Vec<u8>),
    /// The elements of a fixed array or of a sequence.
    List(Vec<Value>),
    Struct(Vec<Value>),
}

/// The mathematical model of a `Value`.
pub enum Val {
    Bool(bool),
    I8(i8),
    U8(u8),
    I16(i16),
    U16(u16),
    I32(i32),
    U32(u32),
    I64(i64),
    U64(u64),
    F32(u32),
    F64(u64),
    Str(Seq<u8>),
    List(Seq<Val>),
    Struct(Seq<Val>),
}

/// An instance that does not conform to the schema it was encoded with.
#[derive(Clone, Copy, Debug, PartialEq, Eq)]
pub enum EncodingError {
    NonConforming,
}

#[derive(Clone, Copy, Debug, PartialEq, Eq)]
pub enum DecodingError {
    /// Fewer bytes remain than the next field requires.
    TruncatedBuffer,
    /// The alignment padding would run past the end of the buffer.
    AlignmentOverrun,
    /// The bytes of a string are not UTF-8.
    InvalidUtf8,
}

impl Value {
    pub open spec fn view(&self) -> Val
        decreases self,
    {
        match self {
            Value::Bool(b) => Val::Bool(*b),
            Value::I8(x) => Val::I8(*x),
            Value::U8(x) => Val::U8(*x),
            Value::I16(x) => Val::I16(*x),
            Value::U16(x) => Val::U16(*x),
            Value::I32(x) => Val::I32(*x),
            Value::U32(x) => Val::U32(*x),
            Value::I64(x) => Val::I64(*x),
            Value::U64(x) => Val::U64(*x),
            Value::F32(x) => Val::F32(*x),
            Value::F64(x) => Val::F64(*x),
            Value::Str(s) => Val::Str(s@),
            Value::List(vs) => Val::List(
                Seq::new(vs.len() as nat, |i: int| if 0 <= i < vs.len() { vs[i].view() } else { Val::Bool(false) }),
            ),
            Value::Struct(vs) => Val::Struct(
                Seq::new(vs.len() as nat, |i: int| if 0 <= i < vs.len() { vs[i].view() } else { Val::Bool(false) }),
            ),
        }
    }
}

/// The size in bytes of a primitive kind, 0 for the others.
pub open spec fn width(k: Kind) -> nat {
    match k {
        Kind::Bool | Kind::I8 | Kind::U8 => 1,
        Kind::I16 | Kind::U16 => 2,
        Kind::I32 | Kind::U32 | Kind::F32 => 4,
        Kind::I64 | Kind::U64 | Kind::F64 => 8,
        _ => 0,
    }
}

/// The unsigned bit pattern of a primitive value of kind `k`, two's
/// complement for signed integers; `None` where the value is not of kind `k`.
pub open spec fn bits_of(k: Kind, v: Val) -> Option<u64> {
    match (k, v) {
        (Kind::Bool, Val::Bool(b)) => Some(if b { 1u64 } else { 0u64 }),
        (Kind::I8, Val::I8(x)) => Some(x as u8 as u64),
        (Kind::U8, Val::U8(x)) => Some(x as u64),
        (Kind::I16, Val::I16(x)) => Some(x as u16 as u64),
        (Kind::U16, Val::U16(x)) => Some(x as u64),
        (Kind::I32, Val::I32(x)) => Some(x as u32 as u64),
        (Kind::U32, Val::U32(x)) => Some(x as u64),
        (Kind::I64, Val::I64(x)) => Some(x as u64),
        (Kind::U64, Val::U64(x)) => Some(x),
        (Kind::F32, Val::F32(x)) => Some(x as u64),
        (Kind::F64, Val::F64(x)) => Some(x),
        _ => None,
    }
}

/// The primitive value of kind `k` with bit pattern `b`.
pub open spec fn val_of(k: Kind, b: u64) -> Val {
    match k {
        Kind::Bool => Val::Bool(b != 0),
        Kind::I8 => Val::I8(b as u8 as i8),
        Kind::U8 => Val::U8(b as u8),
        Kind::I16 => Val::I16(b as u16 as i16),
        Kind::U16 => Val::U16(b as u16),
        Kind::I32 => Val::I32(b as u32 as i32),
        Kind::U32 => Val::U32(b as u32),
        Kind::I64 => Val::I64(b as i64),
        Kind::U64 => Val::U64(b),
        Kind::F32 => Val::F32(b as u32),
        _ => Val::F64(b),
    }
}

/// The `w` low bytes of `x`, least significant first.
pub open spec fn le_bytes(x: u64, w: nat) -> Seq<u8> {
    Seq::new(w, |i: int| ((x >> ((8 * i) as u64)) & 0xff) as u8)
}

/// The number that the first `w` bytes of `s` hold, least significant first
/// (`w` is 1, 2, 4 or 8).
pub open spec fn le_value(s: Seq<u8>, w: nat) -> u64 {
    if w == 1 {
        s[0] as u64
    } else if w == 2 {
        (s[0] as u64) | ((s[1] as u64) << 8u64)
    } else if w == 4 {
        (s[0] as u64) | ((s[1] as u64) << 8u64) | ((s[2] as u64) << 16u64) | ((s[3] as u64)
            << 24u64)
    } else {
        (s[0] as u64) | ((s[1] as u64) << 8u64) | ((s[2] as u64) << 16u64) | ((s[3] as u64)
            << 24u64) | ((s[4] as u64) << 32u64) | ((s[5] as u64) << 40u64) | ((s[6] as u64)
            << 48u64) | ((s[7] as u64) << 56u64)
    }
}

/// The number of zero bytes that bring offset `pos` to a multiple of `a`.
pub open spec fn pad(pos: nat, a: nat) -> nat {
    if a == 0 || pos % a == 0 {
        0
    } else {
        (a - pos % a) as nat
    }
}

pub open spec fn zeros(n: nat) -> Seq<u8> {
    Seq::new(n, |i: int| 0u8)
}

/// Whether `v` is a valid instance of kind `k`: the shapes match, strings
/// are UTF-8, and every length fits the `u32` prefix that carries it.
pub open spec fn conforms(k: Kind, v: Val) -> bool
    decreases k, 0nat,
{
    match k {
        Kind::Str => match v {
            Val::Str(s) => s.len() + 1 <= u32::MAX && valid_utf8(s),
            _ => false,
        },
        Kind::FixedArray(e, n) => match v {
            Val::List(vs) => vs.len() == n && all_conform(*e, vs),
            _ => false,
        },
        Kind::Sequence(e) => match v {
            Val::List(vs) => vs.len() <= u32::MAX && all_conform(*e, vs),
            _ => false,
        },
        Kind::Struct(ks) => match v {
            Val::Struct(vs) => vs.len() == ks.len() && fields_conform(ks@, vs),
            _ => false,
        },
        _ => bits_of(k, v) is Some,
    }
}

pub open spec fn all_conform(e: Kind, vs: Seq<Val>) -> bool
    decreases e, vs.len(),
{
    if vs.len() == 0 {
        true
    } else {
        conforms(e, vs[0]) && all_conform(e, vs.drop_first())
    }
}

pub open spec fn fields_conform(ks: Seq<Kind>, vs: Seq<Val>) -> bool
    decreases ks, 0nat,
{
    if ks.len() == 0 || vs.len() == 0 {
        true
    } else {
        conforms(ks[0], vs[0]) && fields_conform(ks.drop_first(), vs.drop_first())
    }
}

/// The bytes that encode `v` as kind `k` when the message so far holds `pos`
/// bytes, padding included.
pub open spec fn enc(k: Kind, v: Val, pos: nat) -> Seq<u8>
    decreases k, 0nat,
{
    match k {
        Kind::Str => match v {
            Val::Str(s) => zeros(pad(pos, 4)) + le_bytes((s.len() + 1) as u64, 4) + s + seq![0u8],
            _ => seq![],
        },
        Kind::FixedArray(e, n) => match v {
            Val::List(vs) => enc_list(*e, vs, pos),
            _ => seq![],
        },
        Kind::Sequence(e) => match v {
            Val::List(vs) => zeros(pad(pos, 4)) + le_bytes(vs.len() as u64, 4) + enc_list(
                *e,
                vs,
                pos + pad(pos, 4) + 4,
            ),
            _ => seq![],
        },
        Kind::Struct(ks) => match v {
            Val::Struct(vs) => enc_fields(ks@, vs, pos),
            _ => seq![],
        },
        _ => match bits_of(k, v) {
            Some(b) => zeros(pad(pos, width(k))) + le_bytes(b, width(k)),
            None => seq![],
        },
    }
}

pub open spec fn enc_list(e: Kind, vs: Seq<Val>, pos: nat) -> Seq<u8>
    decreases e, vs.len(),
{
    if vs.len() == 0 {
        seq![]
    } else {
        let h = enc(e, vs[0], pos);
        h + enc_list(e, vs.drop_first(), pos + h.len())
    }
}

pub open spec fn enc_fields(ks: Seq<Kind>, vs: Seq<Val>, pos: nat) -> Seq<u8>
    decreases ks, 0nat,
{
    if ks.len() == 0 || vs.len() == 0 {
        seq![]
    } else {
        let h = enc(ks[0], vs[0], pos);
        h + enc_fields(ks.drop_first(), vs.drop_first(), pos + h.len())
    }
}

/// Reads a `w`-byte little-endian number after aligning offset `pos` to `w`:
/// the number and the offset after it.
pub open spec fn read_le(s: Seq<u8>, pos: nat, w: nat) -> Result<(u64, nat), DecodingError> {
    let p = pad(pos, w);
    if pos + p > s.len() {
        Err(DecodingError::AlignmentOverrun)
    } else if pos + p + w > s.len() {
        Err(DecodingError::TruncatedBuffer)
    } else {
        Ok((le_value(s.subrange((pos + p) as int, (pos + p + w) as int), w), pos + p + w))
    }
}

/// Decodes a value of kind `k` from `s` at offset `pos`: the value and the
/// offset after it.
pub open spec fn dec(k: Kind, s: Seq<u8>, pos: nat) -> Result<(Val, nat), DecodingError>
    decreases k, 0nat,
{
    match k {
        Kind::Str => match read_le(s, pos, 4) {
            Ok((n, q)) => if n == 0 {
                Ok((Val::Str(seq![]), q))
            } else if q + n > s.len() {
                Err(DecodingError::TruncatedBuffer)
            } else if !valid_utf8(s.subrange(q as int, q + n - 1)) {
                Err(DecodingError::InvalidUtf8)
            } else {
                Ok((Val::Str(s.subrange(q as int, q + n - 1)), (q + n) as nat))
            },
            Err(x) => Err(x),
        },
        Kind::FixedArray(e, n) => match dec_list(*e, n as nat, s, pos) {
            Ok((vs, q)) => Ok((Val::List(vs), q)),
            Err(x) => Err(x),
        },
        Kind::Sequence(e) => match read_le(s, pos, 4) {
            Ok((n, q)) => match dec_list(*e, n as nat, s, q) {
                Ok((vs, r)) => Ok((Val::List(vs), r)),
                Err(x) => Err(x),
            },
            Err(x) => Err(x),
        },
        Kind::Struct(ks) => match dec_fields(ks@, s, pos) {
            Ok((vs, q)) => Ok((Val::Struct(vs), q)),
            Err(x) => Err(x),
        },
        _ => match read_le(s, pos, width(k)) {
            Ok((b, q)) => Ok((val_of(k, b), q)),
            Err(x) => Err(x),
        },
    }
}

pub open spec fn dec_list(e: Kind, n: nat, s: Seq<u8>, pos: nat) -> Result<
    (Seq<Val>, nat),
    DecodingError,
>
    decreases e, n,
{
    if n == 0 {
        Ok((seq![], pos))
    } else {
        match dec(e, s, pos) {
            Ok((v, q)) => match dec_list(e, (n - 1) as nat, s, q) {
                Ok((vs, r)) => Ok((seq![v] + vs, r)),
                Err(x) => Err(x),
            },
            Err(x) => Err(x),
        }
    }
}

pub open spec fn dec_fields(ks: Seq<Kind>, s: Seq<u8>, pos: nat) -> Result<
    (Seq<Val>, nat),
    DecodingError,
>
    decreases ks, 0nat,
{
    if ks.len() == 0 {
        Ok((seq![], pos))
    } else {
        match dec(ks[0], s, pos) {
            Ok((v, q)) => match dec_fields(ks.drop_first(), s, q) {
                Ok((vs, r)) => Ok((seq![v] + vs, r)),
                Err(x) => Err(x),
            },
            Err(x) => Err(x),
        }
    }
}

pub open spec fn views(vs: Seq<Value>) -> Seq<Val> {
    Seq::new(vs.len(), |i: int| vs[i]@)
}

/// Relies on std::str::from_utf8: it succeeds exactly on well-formed UTF-8.
#[verifier::external_body]
fn is_utf8(b: &[u8]) -> (r: bool)
    ensures
        r == valid_utf8(b@),
{
    std::str::from_utf8(b).is_ok()
}

fn write_le(buf: &mut Vec<u8>, x: u64, w: usize)
    requires
        w <= 8,
    ensures
        final(buf)@ == old(buf)@ + le_bytes(x, w as nat),
{
    let mut i: usize = 0;
    while i < w
        invariant
            i <= w <= 8,
            buf@ == old(buf)@ + le_bytes(x, w as nat).take(i as int),
        decreases w - i,
    {
        buf.push(((x >> (8 * i) as u64) & 0xff) as u8);
        i += 1;
        assert(buf@ =~= old(buf)@ + le_bytes(x, w as nat).take(i as int));
    }
    assert(le_bytes(x, w as nat).take(w as int) =~= le_bytes(x, w as nat));
}

fn write_padding(buf: &mut Vec<u8>, a: usize)
    requires
        a > 0,
    ensures
        final(buf)@ == old(buf)@ + zeros(pad(old(buf)@.len(), a as nat)),
{
    let p: usize = if buf.len() % a == 0 {
        0
    } else {
        a - buf.len() % a
    };
    let mut i: usize = 0;
    while i < p
        invariant
            i <= p,
            p == pad(old(buf)@.len(), a as nat),
            buf@ == old(buf)@ + zeros(p as nat).take(i as int),
        decreases p - i,
    {
        buf.push(0u8);
        i += 1;
        assert(buf@ =~= old(buf)@ + zeros(p as nat).take(i as int));
    }
    assert(zeros(p as nat).take(p as int) =~= zeros(p as nat));
}

fn prim_width(k: &Kind) -> (r: usize)
    ensures
        r == width(*k),
{
    match k {
        Kind::Bool | Kind::I8 | Kind::U8 => 1,
        Kind::I16 | Kind::U16 => 2,
        Kind::I32 | Kind::U32 | Kind::F32 => 4,
        Kind::I64 | Kind::U64 | Kind::F64 => 8,
        _ => 0,
    }
}

fn prim_bits(k: &Kind, v: &Value) -> (r: Option<u64>)
    ensures
        r == bits_of(*k, v@),
{
    match (k, v) {
        (Kind::Bool, Value::Bool(b)) => Some(if *b { 1u64 } else { 0u64 }),
        (Kind::I8, Value::I8(x)) => Some(*x as u8 as u64),
        (Kind::U8, Value::U8(x)) => Some(*x as u64),
        (Kind::I16, Value::I16(x)) => Some(*x as u16 as u64),
        (Kind::U16, Value::U16(x)) => Some(*x as u64),
        (Kind::I32, Value::I32(x)) => Some(*x as u32 as u64),
        (Kind::U32, Value::U32(x)) => Some(*x as u64),
        (Kind::I64, Value::I64(x)) => Some(*x as u64),
        (Kind::U64, Value::U64(x)) => Some(*x),
        (Kind::F32, Value::F32(x)) => Some(*x as u64),
        (Kind::F64, Value::F64(x)) => Some(*x),
        _ => None,
    }
}

fn prim_value(k: &Kind, b: u64) -> (r: Value)
    ensures
        r@ == val_of(*k, b),
{
    match k {
        Kind::Bool => Value::Bool(b != 0),
        Kind::I8 => Value::I8(b as u8 as i8),
        Kind::U8 => Value::U8(b as u8),
        Kind::I16 => Value::I16(b as u16 as i16),
        Kind::U16 => Value::U16(b as u16),
        Kind::I32 => Value::I32(b as u32 as i32),
        Kind::U32 => Value::U32(b as u32),
        Kind::I64 => Value::I64(b as i64),
        Kind::U64 => Value::U64(b),
        Kind::F32 => Value::F32(b as u32),
        _ => Value::F64(b),
    }
}

/// Appends the encoding of `v` as kind `k`; the offset of the message is the
/// buffer's length.
fn encode_into(k: &Kind, v: &Value, buf: &mut Vec<u8>) -> (r: Result<(), EncodingError>)
    ensures
        r is Ok <==> conforms(*k, v@),
        r is Ok ==> final(buf)@ == old(buf)@ + enc(*k, v@, old(buf)@.len()),
    decreases k, 0nat,
{
    match k {
        Kind::Str => match v {
            Value::Str(s) => {
                if s.len() >= u32::MAX as usize || !is_utf8(s.as_slice()) {
                    return Err(EncodingError::NonConforming);
                }
                write_padding(buf, 4);
                write_le(buf, (s.len() + 1) as u64, 4);
                let ghost mid = buf@;
                let mut i: usize = 0;
                while i < s.len()
                    invariant
                        i <= s.len(),
                        buf@ == mid + s@.take(i as int),
                    decreases s.len() - i,
                {
                    buf.push(s[i]);
                    i += 1;
                    assert(buf@ =~= mid + s@.take(i as int));
                }
                assert(s@.take(s.len() as int) =~= s@);
                buf.push(0u8);
                assert(buf@ =~= old(buf)@ + enc(*k, v@, old(buf)@.len()));
                Ok(())
            },
            _ => Err(EncodingError::NonConforming),
        },
        Kind::FixedArray(e, n) => match v {
            Value::List(vs) => {
                if vs.len() != *n {
                    return Err(EncodingError::NonConforming);
                }
                let r = encode_elems(e, vs, buf);
                proof {
                    assert(views(vs@) =~= v@->List_0);
                }
                r
            },
            _ => Err(EncodingError::NonConforming),
        },
        Kind::Sequence(e) => match v {
            Value::List(vs) => {
                if vs.len() > u32::MAX as usize {
                    return Err(EncodingError::NonConforming);
                }
                write_padding(buf, 4);
                write_le(buf, vs.len() as u64, 4);
                let ghost mid = buf@;
                let r = encode_elems(e, vs, buf);
                proof {
                    assert(views(vs@) =~= v@->List_0);
                    if r is Ok {
                        assert(final(buf)@ =~= old(buf)@ + enc(*k, v@, old(buf)@.len()));
                    }
                }
                r
            },
            _ => Err(EncodingError::NonConforming),
        },
        Kind::Struct(ks) => match v {
            Value::Struct(vs) => {
                if vs.len() != ks.len() {
                    return Err(EncodingError::NonConforming);
                }
                let r = encode_fields(ks, vs, buf);
                proof {
                    assert(views(vs@) =~= v@->Struct_0);
                }
                r
            },
            _ => Err(EncodingError::NonConforming),
        },
        _ => match prim_bits(k, v) {
            Some(b) => {
                let w = prim_width(k);
                write_padding(buf, w);
                write_le(buf, b, w);
                assert(buf@ =~= old(buf)@ + enc(*k, v@, old(buf)@.len()));
                Ok(())
            },
            None => Err(EncodingError::NonConforming),
        },
    }
}

fn encode_elems(e: &Kind, vs: &Vec<Value>, buf: &mut Vec<u8>) -> (r: Result<(), EncodingError>)
    ensures
        r is Ok <==> all_conform(*e, views(vs@)),
        r is Ok ==> final(buf)@ == old(buf)@ + enc_list(*e, views(vs@), old(buf)@.len()),
    decreases e, 1nat,
{
    let ghost vv = views(vs@);
    assert(vv.skip(0) =~= vv);
    let mut i: usize = 0;
    while i < vs.len()
        invariant
            i <= vs.len(),
            vv == views(vs@),
            all_conform(*e, vv) == all_conform(*e, vv.skip(i as int)),
            buf@ + enc_list(*e, vv.skip(i as int), buf@.len()) == old(buf)@ + enc_list(
                *e,
                vv,
                old(buf)@.len(),
            ),
        decreases vs.len() - i,
    {
        let ghost before = buf@;
        assert(vv.skip(i as int).drop_first() =~= vv.skip(i + 1));
        assert(vv.skip(i as int)[0] == vs@[i as int]@);
        match encode_into(e, &vs[i], buf) {
            Ok(()) => {},
            Err(x) => {
                return Err(x);
            },
        }
        assert(buf@ + enc_list(*e, vv.skip(i + 1), buf@.len()) =~= before + enc_list(
            *e,
            vv.skip(i as int),
            before.len(),
        ));
        i += 1;
    }
    assert(vv.skip(i as int) =~= Seq::<Val>::empty());
    assert(buf@ =~= buf@ + enc_list(*e, vv.skip(i as int), buf@.len()));
    Ok(())
}

fn encode_fields(ks: &Vec<Kind>, vs: &Vec<Value>, buf: &mut Vec<u8>) -> (r: Result<
    (),
    EncodingError,
>)
    requires
        ks.len() == vs.len(),
    ensures
        r is Ok <==> fields_conform(ks@, views(vs@)),
        r is Ok ==> final(buf)@ == old(buf)@ + enc_fields(ks@, views(vs@), old(buf)@.len()),
    decreases ks, 1nat,
{
    let ghost vv = views(vs@);
    assert(vv.skip(0) =~= vv);
    assert(ks@.skip(0) =~= ks@);
    let mut i: usize = 0;
    while i < vs.len()
        invariant
            i <= vs.len(),
            ks.len() == vs.len(),
            vv == views(vs@),
            fields_conform(ks@, vv) == fields_conform(ks@.skip(i as int), vv.skip(i as int)),
            buf@ + enc_fields(ks@.skip(i as int), vv.skip(i as int), buf@.len()) == old(buf)@
                + enc_fields(ks@, vv, old(buf)@.len()),
        decreases vs.len() - i,
    {
        let ghost before = buf@;
        assert(vv.skip(i as int).drop_first() =~= vv.skip(i + 1));
        assert(ks@.skip(i as int).drop_first() =~= ks@.skip(i + 1));
        assert(vv.skip(i as int)[0] == vs@[i as int]@);
        match encode_into(&ks[i], &vs[i], buf) {
            Ok(()) => {},
            Err(x) => {
                return Err(x);
            },
        }
        assert(buf@ + enc_fields(ks@.skip(i + 1), vv.skip(i + 1), buf@.len()) =~= before
            + enc_fields(ks@.skip(i as int), vv.skip(i as int), before.len()));
        i += 1;
    }
    assert(vv.skip(i as int) =~= Seq::<Val>::empty());
    assert(buf@ =~= buf@ + enc_fields(ks@.skip(i as int), vv.skip(i as int), buf@.len()));
    Ok(())
}

proof fn lemma_le4_fits(b0: u8, b1: u8, b2: u8, b3: u8)
    ensures
        (b0 as u64) | ((b1 as u64) << 8u64) | ((b2 as u64) << 16u64) | ((b3 as u64) << 24u64)
            <= 0xffff_ffff,
{
    assert((b0 as u64) | ((b1 as u64) << 8u64) | ((b2 as u64) << 16u64) | ((b3 as u64)
        << 24u64) <= 0xffff_ffff) by (bit_vector);
}

fn read_le_at(data: &[u8], pos: usize, w: usize) -> (r: Result<(u64, usize), DecodingError>)
    requires
        pos <= data@.len(),
        w == 1 || w == 2 || w == 4 || w == 8,
    ensures
        match read_le(data@, pos as nat, w as nat) {
            Ok((b, q)) => r is Ok && r->Ok_0.0 == b && r->Ok_0.1 == q && q <= data@.len(),
            Err(x) => r == Err::<(u64, usize), DecodingError>(x),
        },
{
    let len = data.len();
    let p: usize = if pos % w == 0 {
        0
    } else {
        w - pos % w
    };
    if p > len - pos {
        return Err(DecodingError::AlignmentOverrun);
    }
    let at = pos + p;
    if w > len - at {
        return Err(DecodingError::TruncatedBuffer);
    }
    let b: u64 = if w == 1 {
        data[at] as u64
    } else if w == 2 {
        (data[at] as u64) | ((data[at + 1] as u64) << 8u64)
    } else if w == 4 {
        (data[at] as u64) | ((data[at + 1] as u64) << 8u64) | ((data[at + 2] as u64) << 16u64)
            | ((data[at + 3] as u64) << 24u64)
    } else {
        (data[at] as u64) | ((data[at + 1] as u64) << 8u64) | ((data[at + 2] as u64) << 16u64)
            | ((data[at + 3] as u64) << 24u64) | ((data[at + 4] as u64) << 32u64) | ((data[at
            + 5] as u64) << 40u64) | ((data[at + 6] as u64) << 48u64) | ((data[at + 7] as u64)
            << 56u64)
    };
    Ok((b, at + w))
}

/// Decodes a value of kind `k` at offset `pos` of `data`.
fn decode_at(k: &Kind, data: &[u8], pos: usize) -> (r: Result<(Value, usize), DecodingError>)
    requires
        pos <= data@.len(),
    ensures
        match dec(*k, data@, pos as nat) {
            Ok((v, q)) => r is Ok && r->Ok_0.0@ == v && r->Ok_0.1 == q,
            Err(x) => r == Err::<(Value, usize), DecodingError>(x),
        },
        r is Ok ==> r->Ok_0.1 <= data@.len(),
    decreases k, 0nat,
{
    match k {
        Kind::Str => {
            let (n, q) = match read_le_at(data, pos, 4) {
                Ok(x) => x,
                Err(x) => {
                    return Err(x);
                },
            };
            if n == 0 {
                let s: Vec<u8> = Vec::new();
                assert(s@ =~= seq![]);
                return Ok((Value::Str(s), q));
            }
            if n > (data.len() - q) as u64 {
                return Err(DecodingError::TruncatedBuffer);
            }
            let end = q + (n as usize) - 1;
            let mut s: Vec<u8> = Vec::new();
            let mut i: usize = q;
            while i < end
                invariant
                    q <= i <= end < data@.len(),
                    s@ == data@.subrange(q as int, i as int),
                decreases end - i,
            {
                s.push(data[i]);
                i += 1;
                assert(s@ =~= data@.subrange(q as int, i as int));
            }
            assert(end + 1 == q + n);
            if !is_utf8(s.as_slice()) {
                return Err(DecodingError::InvalidUtf8);
            }
            Ok((Value::Str(s), end + 1))
        },
        Kind::FixedArray(e, n) => {
            let (vs, q) = match decode_elems(e, *n, data, pos) {
                Ok(x) => x,
                Err(x) => {
                    return Err(x);
                },
            };
            let ghost gv = vs@;
            let r = Value::List(vs);
            assert(r@->List_0 =~= views(gv));
            Ok((r, q))
        },
        Kind::Sequence(e) => {
            let (n, q) = match read_le_at(data, pos, 4) {
                Ok(x) => x,
                Err(x) => {
                    return Err(x);
                },
            };
            proof {
                let t = data@.subrange((pos + pad(pos as nat, 4)) as int, q as int);
                lemma_le4_fits(t[0], t[1], t[2], t[3]);
            }
            let (vs, r) = match decode_elems(e, n as usize, data, q) {
                Ok(x) => x,
                Err(x) => {
                    return Err(x);
                },
            };
            let ghost gv = vs@;
            let v = Value::List(vs);
            assert(v@->List_0 =~= views(gv));
            Ok((v, r))
        },
        Kind::Struct(ks) => {
            let (vs, q) = match decode_fields(ks, data, pos) {
                Ok(x) => x,
                Err(x) => {
                    return Err(x);
                },
            };
            let ghost gv = vs@;
            let r = Value::Struct(vs);
            assert(r@->Struct_0 =~= views(gv));
            Ok((r, q))
        },
        _ => {
            let w = prim_width(k);
            match read_le_at(data, pos, w) {
                Ok((b, q)) => Ok((prim_value(k, b), q)),
                Err(x) => Err(x),
            }
        },
    }
}

fn decode_elems(e: &Kind, n: usize, data: &[u8], pos: usize) -> (r: Result<
    (Vec<Value>, usize),
    DecodingError,
>)
    requires
        pos <= data@.len(),
    ensures
        match dec_list(*e, n as nat, data@, pos as nat) {
            Ok((vs, q)) => r is Ok && views(r->Ok_0.0@) == vs && r->Ok_0.1 == q,
            Err(x) => r == Err::<(Vec<Value>, usize), DecodingError>(x),
        },
        r is Ok ==> r->Ok_0.1 <= data@.len(),
    decreases e, 1nat,
{
    let mut out: Vec<Value> = Vec::new();
    let mut cur = pos;
    let mut i: usize = 0;
    assert(views(out@) =~= seq![]);
    while i < n
        invariant
            cur <= data@.len(),
            i <= n,
            out.len() == i,
            dec_list(*e, n as nat, data@, pos as nat) == match dec_list(
                *e,
                (n - i) as nat,
                data@,
                cur as nat,
            ) {
                Ok((rest, q)) => Ok((views(out@) + rest, q)),
                Err(x) => Err(x),
            },
        decreases n - i,
    {
        let ghost before = views(out@);
        let (v, q) = match decode_at(e, data, cur) {
            Ok(x) => x,
            Err(x) => {
                return Err(x);
            },
        };
        let ghost gv = v@;
        out.push(v);
        proof {
            assert(views(out@) =~= before.push(gv));
            match dec_list(*e, (n - i - 1) as nat, data@, q as nat) {
                Ok((rest, _)) => {
                    assert(views(out@) + rest =~= before + (seq![gv] + rest));
                },
                Err(_) => {},
            }
        }
        cur = q;
        i += 1;
    }
    assert(views(out@) + seq![] =~= views(out@));
    Ok((out, cur))
}

fn decode_fields(ks: &Vec<Kind>, data: &[u8], pos: usize) -> (r: Result<
    (Vec<Value>, usize),
    DecodingError,
>)
    requires
        pos <= data@.len(),
    ensures
        match dec_fields(ks@, data@, pos as nat) {
            Ok((vs, q)) => r is Ok && views(r->Ok_0.0@) == vs && r->Ok_0.1 == q,
            Err(x) => r == Err::<(Vec<Value>, usize), DecodingError>(x),
        },
        r is Ok ==> r->Ok_0.1 <= data@.len(),
    decreases ks, 1nat,
{
    let mut out: Vec<Value> = Vec::new();
    let mut cur = pos;
    let mut i: usize = 0;
    assert(views(out@) =~= seq![]);
    assert(ks@.skip(0) =~= ks@);
    while i < ks.len()
        invariant
            cur <= data@.len(),
            i <= ks.len(),
            out.len() == i,
            dec_fields(ks@, data@, pos as nat) == match dec_fields(
                ks@.skip(i as int),
                data@,
                cur as nat,
            ) {
                Ok((rest, q)) => Ok((views(out@) + rest, q)),
                Err(x) => Err(x),
            },
        decreases ks.len() - i,
    {
        let ghost before = views(out@);
        assert(ks@.skip(i as int).drop_first() =~= ks@.skip(i + 1));
        let (v, q) = match decode_at(&ks[i], data, cur) {
            Ok(x) => x,
            Err(x) => {
                return Err(x);
            },
        };
        let ghost gv = v@;
        out.push(v);
        proof {
            assert(views(out@) =~= before.push(gv));
            match dec_fields(ks@.skip(i + 1), data@, q as nat) {
                Ok((rest, _)) => {
                    assert(views(out@) + rest =~= before + (seq![gv] + rest));
                },
                Err(_) => {},
            }
        }
        cur = q;
        i += 1;
    }
    assert(views(out@) + seq![] =~= views(out@));
    Ok((out, cur))
}

/// Encodes `v` as an instance of kind `k`, from the start of a message.
/// Fails exactly when `v` does not conform to `k`.
pub fn serialize(v: &Value, k: &Kind) -> (r: Result<Vec<u8>, EncodingError>)
    ensures
        r is Ok <==> conforms(*k, v@),
        r is Ok ==> r->Ok_0@ == enc(*k, v@, 0),
{
    let mut buf: Vec<u8> = Vec::new();
    match encode_into(k, v, &mut buf) {
        Ok(()) => {
            assert(buf@ =~= enc(*k, v@, 0));
            Ok(buf)
        },
        Err(x) => Err(x),
    }
}

/// Decodes an instance of kind `k` from the start of `data`; bytes after it
/// are ignored.
pub fn deserialize(data: &[u8], k: &Kind) -> (r: Result<Value, DecodingError>)
    ensures
        match dec(*k, data@, 0) {
            Ok((v, _)) => r is Ok && r->Ok_0@ == v,
            Err(x) => r == Err::<Value, DecodingError>(x),
        },
{
    match decode_at(k, data, 0) {
        Ok((v, _)) => Ok(v),
        Err(x) => Err(x),
    }
}

proof fn lemma_split(s: Seq<u8>, pos: nat, a: Seq<u8>, b: Seq<u8>)
    requires
        pos + a.len() + b.len() <= s.len(),
        s.subrange(pos as int, (pos + a.len() + b.len()) as int) == a + b,
    ensures
        s.subrange(pos as int, (pos + a.len()) as int) == a,
        s.subrange((pos + a.len()) as int, (pos + a.len() + b.len()) as int) == b,
{
    let whole = s.subrange(pos as int, (pos + a.len() + b.len()) as int);
    assert forall|i: int| 0 <= i < a.len() implies s.subrange(pos as int, (pos + a.len()) as int)[i]
        == a[i] by {
        assert(whole[i] == (a + b)[i]);
    }
    assert forall|i: int| 0 <= i < b.len() implies s.subrange((pos + a.len()) as int, (pos + a.len() + b.len()) as int)[i] == b[i] by {
        assert(whole[a.len() + i] == (a + b)[a.len() + i]);
    }
    assert(s.subrange(pos as int, (pos + a.len()) as int) =~= a);
    assert(s.subrange((pos + a.len()) as int, (pos + a.len() + b.len()) as int) =~= b);
}

/// Reading back the `w` low bytes of `x` gives `x`, when `x` fits in them.
pub proof fn lemma_le_round(x: u64, w: nat)
    requires
        w == 1 || w == 2 || w == 4 || w == 8,
        w == 1 ==> x < 0x100,
        w == 2 ==> x < 0x1_0000,
        w == 4 ==> x < 0x1_0000_0000,
    ensures
        le_value(le_bytes(x, w), w) == x,
{
    let s = le_bytes(x, w);
    if w == 1 {
        assert(s[0] == ((x >> 0u64) & 0xff) as u8);
        assert(x < 0x100 ==> (((x >> 0u64) & 0xff) as u8) as u64 == x) by (bit_vector);
    } else if w == 2 {
        assert(s[0] == ((x >> 0u64) & 0xff) as u8);
        assert(s[1] == ((x >> 8u64) & 0xff) as u8);
        assert(x < 0x1_0000 ==> ((((x >> 0u64) & 0xff) as u8) as u64) | (((((x >> 8u64) & 0xff)
            as u8) as u64) << 8u64) == x) by (bit_vector);
    } else if w == 4 {
        assert(s[0] == ((x >> 0u64) & 0xff) as u8);
        assert(s[1] == ((x >> 8u64) & 0xff) as u8);
        assert(s[2] == ((x >> 16u64) & 0xff) as u8);
        assert(s[3] == ((x >> 24u64) & 0xff) as u8);
        assert(x < 0x1_0000_0000 ==> ((((x >> 0u64) & 0xff) as u8) as u64) | (((((x >> 8u64)
            & 0xff) as u8) as u64) << 8u64) | (((((x >> 16u64) & 0xff) as u8) as u64) << 16u64)
            | (((((x >> 24u64) & 0xff) as u8) as u64) << 24u64) == x) by (bit_vector);
    } else {
        assert(s[0] == ((x >> 0u64) & 0xff) as u8);
        assert(s[1] == ((x >> 8u64) & 0xff) as u8);
        assert(s[2] == ((x >> 16u64) & 0xff) as u8);
        assert(s[3] == ((x >> 24u64) & 0xff) as u8);
        assert(s[4] == ((x >> 32u64) & 0xff) as u8);
        assert(s[5] == ((x >> 40u64) & 0xff) as u8);
        assert(s[6] == ((x >> 48u64) & 0xff) as u8);
        assert(s[7] == ((x >> 56u64) & 0xff) as u8);
        assert(((((x >> 0u64) & 0xff) as u8) as u64) | (((((x >> 8u64) & 0xff) as u8) as u64)
            << 8u64) | (((((x >> 16u64) & 0xff) as u8) as u64) << 16u64) | (((((x >> 24u64)
            & 0xff) as u8) as u64) << 24u64) | (((((x >> 32u64) & 0xff) as u8) as u64) << 32u64)
            | (((((x >> 40u64) & 0xff) as u8) as u64) << 40u64) | (((((x >> 48u64) & 0xff) as u8)
            as u64) << 48u64) | (((((x >> 56u64) & 0xff) as u8) as u64) << 56u64) == x)
            by (bit_vector);
    }
}

proof fn lemma_prim_round(k: Kind, v: Val)
    requires
        bits_of(k, v) is Some,
    ensures
        val_of(k, bits_of(k, v)->Some_0) == v,
        width(k) == 1 || width(k) == 2 || width(k) == 4 || width(k) == 8,
        width(k) == 1 ==> bits_of(k, v)->Some_0 < 0x100,
        width(k) == 2 ==> bits_of(k, v)->Some_0 < 0x1_0000,
        width(k) == 4 ==> bits_of(k, v)->Some_0 < 0x1_0000_0000,
{
    match (k, v) {
        (Kind::I8, Val::I8(x)) => {
            assert((x as u8 as u64) as u8 as i8 == x) by (bit_vector);
        },
        (Kind::I16, Val::I16(x)) => {
            assert((x as u16 as u64) as u16 as i16 == x) by (bit_vector);
        },
        (Kind::I32, Val::I32(x)) => {
            assert((x as u32 as u64) as u32 as i32 == x) by (bit_vector);
        },
        (Kind::I64, Val::I64(x)) => {
            assert((x as u64) as i64 == x) by (bit_vector);
        },
        _ => {},
    }
}

/// Decoding what `enc` wrote for a conforming value, at the same offset and
/// whatever surrounds it, gives the value back and ends where the encoding
/// ends.
pub proof fn lemma_dec_enc(k: Kind, v: Val, s: Seq<u8>, pos: nat)
    requires
        conforms(k, v),
        pos + enc(k, v, pos).len() <= s.len(),
        s.subrange(pos as int, (pos + enc(k, v, pos).len()) as int) == enc(k, v, pos),
    ensures
        dec(k, s, pos) == Ok::<(Val, nat), DecodingError>((v, pos + enc(k, v, pos).len())),
    decreases k, 0nat,
{
    match k {
        Kind::Str => {
            let b = v->Str_0;
            let p = pad(pos, 4);
            let n = (b.len() + 1) as u64;
            assert(enc(k, v, pos) =~= (zeros(p) + le_bytes(n, 4)) + (b + seq![0u8]));
            lemma_split(s, pos, zeros(p) + le_bytes(n, 4), b + seq![0u8]);
            lemma_split(s, pos, zeros(p), le_bytes(n, 4));
            lemma_split(s, pos + p + 4, b, seq![0u8]);
            lemma_le_round(n, 4);
        },
        Kind::FixedArray(e, n) => {
            lemma_dec_enc_list(*e, v->List_0, s, pos);
        },
        Kind::Sequence(e) => {
            let vs = v->List_0;
            let p = pad(pos, 4);
            let n = vs.len() as u64;
            let rest = enc_list(*e, vs, pos + p + 4);
            lemma_split(s, pos, zeros(p) + le_bytes(n, 4), rest);
            lemma_split(s, pos, zeros(p), le_bytes(n, 4));
            lemma_le_round(n, 4);
            lemma_dec_enc_list(*e, vs, s, pos + p + 4);
        },
        Kind::Struct(ks) => {
            lemma_dec_enc_fields(ks@, v->Struct_0, s, pos);
        },
        _ => {
            let b = bits_of(k, v)->Some_0;
            let w = width(k);
            lemma_prim_round(k, v);
            lemma_split(s, pos, zeros(pad(pos, w)), le_bytes(b, w));
            lemma_le_round(b, w);
        },
    }
}

proof fn lemma_dec_enc_list(e: Kind, vs: Seq<Val>, s: Seq<u8>, pos: nat)
    requires
        all_conform(e, vs),
        pos + enc_list(e, vs, pos).len() <= s.len(),
        s.subrange(pos as int, (pos + enc_list(e, vs, pos).len()) as int) == enc_list(e, vs, pos),
    ensures
        dec_list(e, vs.len(), s, pos) == Ok::<(Seq<Val>, nat), DecodingError>(
            (vs, pos + enc_list(e, vs, pos).len()),
        ),
    decreases e, vs.len(),
{
    if vs.len() == 0 {
        assert(vs =~= seq![]);
    } else {
        let h = enc(e, vs[0], pos);
        let t = enc_list(e, vs.drop_first(), pos + h.len());
        lemma_split(s, pos, h, t);
        lemma_dec_enc(e, vs[0], s, pos);
        lemma_dec_enc_list(e, vs.drop_first(), s, pos + h.len());
        assert(seq![vs[0]] + vs.drop_first() =~= vs);
    }
}

proof fn lemma_dec_enc_fields(ks: Seq<Kind>, vs: Seq<Val>, s: Seq<u8>, pos: nat)
    requires
        ks.len() == vs.len(),
        fields_conform(ks, vs),
        pos + enc_fields(ks, vs, pos).len() <= s.len(),
        s.subrange(pos as int, (pos + enc_fields(ks, vs, pos).len()) as int) == enc_fields(ks, vs, pos),
    ensures
        dec_fields(ks, s, pos) == Ok::<(Seq<Val>, nat), DecodingError>(
            (vs, pos + enc_fields(ks, vs, pos).len()),
        ),
    decreases ks, 0nat,
{
    if ks.len() == 0 {
        assert(vs =~= seq![]);
    } else {
        let h = enc(ks[0], vs[0], pos);
        let t = enc_fields(ks.drop_first(), vs.drop_first(), pos + h.len());
        lemma_split(s, pos, h, t);
        lemma_dec_enc(ks[0], vs[0], s, pos);
        lemma_dec_enc_fields(ks.drop_first(), vs.drop_first(), s, pos + h.len());
        assert(seq![vs[0]] + vs.drop_first() =~= vs);
    }
}

/// Round trip: decoding the encoding of any conforming instance gives the
/// instance back, and consumes exactly the encoded bytes.
pub proof fn lemma_round_trip(k: Kind, v: Val)
    requires
        conforms(k, v),
    ensures
        dec(k, enc(k, v, 0), 0) == Ok::<(Val, nat), DecodingError>((v, enc(k, v, 0).len())),
{
    let s = enc(k, v, 0);
    assert(s.subrange(0, s.len() as int) =~= s);
    lemma_dec_enc(k, v, s, 0);
}

proof fn lemma_cut_split(s: Seq<u8>, pos: nat, a: Seq<u8>, b: Seq<u8>)
    requires
        pos <= s.len() < pos + a.len() + b.len(),
        s.subrange(pos as int, s.len() as int) == (a + b).subrange(0, s.len() - pos),
    ensures
        s.len() < pos + a.len() ==> s.subrange(pos as int, s.len() as int) == a.subrange(
            0,
            s.len() - pos,
        ),
        s.len() >= pos + a.len() ==> s.subrange(pos as int, (pos + a.len()) as int) == a,
        s.len() >= pos + a.len() ==> s.subrange((pos + a.len()) as int, s.len() as int)
            == b.subrange(0, s.len() - pos - a.len()),
{
    let cut = s.subrange(pos as int, s.len() as int);
    if s.len() < pos + a.len() {
        assert forall|i: int| 0 <= i < s.len() - pos implies cut[i] == a.subrange(
            0,
            s.len() - pos,
        )[i] by {
            assert(cut[i] == (a + b).subrange(0, s.len() - pos)[i]);
        }
        assert(cut =~= a.subrange(0, s.len() - pos));
    } else {
        assert forall|i: int| 0 <= i < a.len() implies s.subrange(
            pos as int,
            (pos + a.len()) as int,
        )[i] == a[i] by {
            assert(cut[i] == (a + b).subrange(0, s.len() - pos)[i]);
        }
        assert forall|i: int| 0 <= i < s.len() - pos - a.len() implies #[trigger] s.subrange(
            (pos + a.len()) as int,
            s.len() as int,
        )[i] == b.subrange(0, s.len() - pos - a.len())[i] by {
            assert(cut[a.len() + i] == (a + b).subrange(0, s.len() - pos)[a.len() + i]);
        }
        assert(s.subrange(pos as int, (pos + a.len()) as int) =~= a);
        assert(s.subrange((pos + a.len()) as int, s.len() as int) =~= b.subrange(
            0,
            s.len() - pos - a.len(),
        ));
    }
}

/// An error that says the buffer ended too soon.
pub open spec fn is_short(e: DecodingError) -> bool {
    e is TruncatedBuffer || e is AlignmentOverrun
}

/// Decoding a buffer that ends inside the encoding of a conforming value
/// (it holds the bytes from `pos` on, but not all of them) fails, and says
/// that the buffer ended too soon.
pub proof fn lemma_dec_cut(k: Kind, v: Val, s: Seq<u8>, pos: nat)
    requires
        conforms(k, v),
        pos <= s.len() < pos + enc(k, v, pos).len(),
        s.subrange(pos as int, s.len() as int) == enc(k, v, pos).subrange(0, s.len() - pos),
    ensures
        dec(k, s, pos) is Err,
        is_short(dec(k, s, pos)->Err_0),
    decreases k, 0nat,
{
    match k {
        Kind::Str => {
            let b = v->Str_0;
            let p = pad(pos, 4);
            let n = (b.len() + 1) as u64;
            assert(enc(k, v, pos) =~= (zeros(p) + le_bytes(n, 4)) + (b + seq![0u8]));
            lemma_cut_split(s, pos, zeros(p) + le_bytes(n, 4), b + seq![0u8]);
            if s.len() >= pos + p + 4 {
                lemma_split(s, pos, zeros(p), le_bytes(n, 4));
                lemma_le_round(n, 4);
            }
        },
        Kind::FixedArray(e, n) => {
            lemma_dec_cut_list(*e, v->List_0, s, pos);
        },
        Kind::Sequence(e) => {
            let vs = v->List_0;
            let p = pad(pos, 4);
            let n = vs.len() as u64;
            let rest = enc_list(*e, vs, pos + p + 4);
            lemma_cut_split(s, pos, zeros(p) + le_bytes(n, 4), rest);
            if s.len() >= pos + p + 4 {
                lemma_split(s, pos, zeros(p), le_bytes(n, 4));
                lemma_le_round(n, 4);
                lemma_dec_cut_list(*e, vs, s, pos + p + 4);
            }
        },
        Kind::Struct(ks) => {
            lemma_dec_cut_fields(ks@, v->Struct_0, s, pos);
        },
        _ => {},
    }
}

proof fn lemma_dec_cut_list(e: Kind, vs: Seq<Val>, s: Seq<u8>, pos: nat)
    requires
        all_conform(e, vs),
        pos <= s.len() < pos + enc_list(e, vs, pos).len(),
        s.subrange(pos as int, s.len() as int) == enc_list(e, vs, pos).subrange(
            0,
            s.len() - pos,
        ),
    ensures
        dec_list(e, vs.len(), s, pos) is Err,
        is_short(dec_list(e, vs.len(), s, pos)->Err_0),
    decreases e, vs.len(),
{
    let h = enc(e, vs[0], pos);
    let t = enc_list(e, vs.drop_first(), pos + h.len());
    lemma_cut_split(s, pos, h, t);
    if s.len() < pos + h.len() {
        lemma_dec_cut(e, vs[0], s, pos);
    } else {
        lemma_dec_enc(e, vs[0], s, pos);
        lemma_dec_cut_list(e, vs.drop_first(), s, pos + h.len());
    }
}

proof fn lemma_dec_cut_fields(ks: Seq<Kind>, vs: Seq<Val>, s: Seq<u8>, pos: nat)
    requires
        ks.len() == vs.len(),
        fields_conform(ks, vs),
        pos <= s.len() < pos + enc_fields(ks, vs, pos).len(),
        s.subrange(pos as int, s.len() as int) == enc_fields(ks, vs, pos).subrange(
            0,
            s.len() - pos,
        ),
    ensures
        dec_fields(ks, s, pos) is Err,
        is_short(dec_fields(ks, s, pos)->Err_0),
    decreases ks, 0nat,
{
    let h = enc(ks[0], vs[0], pos);
    let t = enc_fields(ks.drop_first(), vs.drop_first(), pos + h.len());
    lemma_cut_split(s, pos, h, t);
    if s.len() < pos + h.len() {
        lemma_dec_cut(ks[0], vs[0], s, pos);
    } else {
        lemma_dec_enc(ks[0], vs[0], s, pos);
        lemma_dec_cut_fields(ks.drop_first(), vs.drop_first(), s, pos + h.len());
    }
}

/// A buffer shorter than the encoding of a conforming instance, of which it
/// holds the first bytes, does not decode: the result is `TruncatedBuffer`
/// or `AlignmentOverrun`, never a value.
pub proof fn lemma_short_buffer(k: Kind, v: Val, n: nat)
    requires
        conforms(k, v),
        n < enc(k, v, 0).len(),
    ensures
        dec(k, enc(k, v, 0).subrange(0, n as int), 0) is Err,
        is_short(dec(k, enc(k, v, 0).subrange(0, n as int), 0)->Err_0),
{
    let s = enc(k, v, 0).subrange(0, n as int);
    assert(s.subrange(0, s.len() as int) =~= s);
    lemma_dec_cut(k, v, s, 0);
}

} // verus!
