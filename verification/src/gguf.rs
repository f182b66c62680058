//! Minimal GGUF parser.
//!
//! Parses the GGUF container (header, metadata key/value pairs, tensor table) held in memory,
//! and exposes each tensor's data as a slice of the file bytes. All multi-byte values are
//! little-endian (the standard GGUF byte order).

use vstd::prelude::*;

use crate::tensor::{block_of, byte_size_of, ggml_type_of, GgmlType};
use crate::text::str_eq;
use vstd::utf8::{decode_utf8, valid_utf8};

verus! {

/// The data section is aligned to this many bytes unless `general.alignment` says otherwise.
pub const DEFAULT_ALIGNMENT: u64 = 32;

/// `std::io::Error`, carried by [`GgufError::Io`] when reading the file from disk fails.
#[verifier::external_type_specification]
#[verifier::external_body]
pub struct ExIoError(std::io::Error);

#[derive(Debug)]
pub enum GgufError {
    Io(std::io::Error),
    BadMagic([u8; 4]),
    UnsupportedVersion(u32),
    UnexpectedEof { needed: usize, pos: usize, len: usize },
    UnknownValueType(u32),
    InvalidUtf8,
    UnknownTensorType { name: String, ty: u32 },
    TensorOutOfBounds { name: String },
}

/// A parse failure as plain values.
pub enum Failure {
    Io,
    BadMagic(Seq<u8>),
    UnsupportedVersion(u32),
    UnexpectedEof { needed: int, pos: int, len: int },
    UnknownValueType(u32),
    InvalidUtf8,
    UnknownTensorType { name: Seq<char>, ty: u32 },
    TensorOutOfBounds { name: Seq<char> },
}

impl View for GgufError {
    type V = Failure;

    open spec fn view(&self) -> Failure {
        match self {
            GgufError::Io(_) => Failure::Io,
            GgufError::BadMagic(m) => Failure::BadMagic(m@),
            GgufError::UnsupportedVersion(v) => Failure::UnsupportedVersion(*v),
            GgufError::UnexpectedEof { needed, pos, len } => Failure::UnexpectedEof {
                needed: *needed as int,
                pos: *pos as int,
                len: *len as int,
            },
            GgufError::UnknownValueType(v) => Failure::UnknownValueType(*v),
            GgufError::InvalidUtf8 => Failure::InvalidUtf8,
            GgufError::UnknownTensorType { name, ty } => Failure::UnknownTensorType {
                name: name@,
                ty: *ty,
            },
            GgufError::TensorOutOfBounds { name } => Failure::TensorOutOfBounds { name: name@ },
        }
    }
}

// ---------------------------------------------------------------------------------------------
// Little-endian fields
// ---------------------------------------------------------------------------------------------

/// The little-endian `u16` at `p`.
pub open spec fn le_u16(b: Seq<u8>, p: int) -> u16 {
    (b[p] as int + 256 * b[p + 1]) as u16
}

/// The little-endian `u32` at `p`.
pub open spec fn le_u32(b: Seq<u8>, p: int) -> u32 {
    (b[p] as int + 0x100 * b[p + 1] + 0x10000 * b[p + 2] + 0x1000000 * b[p + 3]) as u32
}

/// The little-endian `u64` at `p`.
pub open spec fn le_u64(b: Seq<u8>, p: int) -> u64 {
    (le_u32(b, p) as int + 0x1_0000_0000 * le_u32(b, p + 4)) as u64
}

/// The count a failed read of `n` bytes reports (`n`, saturated to `usize`).
pub open spec fn needed(n: int) -> int {
    if n <= usize::MAX {
        n
    } else {
        usize::MAX as int
    }
}

/// The failure of reading `n` bytes at `p` from a buffer of `len` bytes.
pub open spec fn eof(n: int, p: int, len: int) -> Failure {
    Failure::UnexpectedEof { needed: needed(n), pos: p, len }
}

/// Reading `n` bytes at `p`: the position after them, or the end-of-file failure.
pub open spec fn take_at(b: Seq<u8>, p: int, n: int) -> Result<int, Failure> {
    if p + n <= b.len() {
        Ok(p + n)
    } else {
        Err(eof(n, p, b.len() as int))
    }
}

pub open spec fn u8_at(b: Seq<u8>, p: int) -> Result<(u8, int), Failure> {
    match take_at(b, p, 1) {
        Ok(q) => Ok((b[p], q)),
        Err(e) => Err(e),
    }
}

pub open spec fn u16_at(b: Seq<u8>, p: int) -> Result<(u16, int), Failure> {
    match take_at(b, p, 2) {
        Ok(q) => Ok((le_u16(b, p), q)),
        Err(e) => Err(e),
    }
}

pub open spec fn u32_at(b: Seq<u8>, p: int) -> Result<(u32, int), Failure> {
    match take_at(b, p, 4) {
        Ok(q) => Ok((le_u32(b, p), q)),
        Err(e) => Err(e),
    }
}

pub open spec fn u64_at(b: Seq<u8>, p: int) -> Result<(u64, int), Failure> {
    match take_at(b, p, 8) {
        Ok(q) => Ok((le_u64(b, p), q)),
        Err(e) => Err(e),
    }
}

/// A GGUF string at `p`: a `u64` byte length, then that many bytes of UTF-8.
pub open spec fn string_at(b: Seq<u8>, p: int) -> Result<(Seq<char>, int), Failure> {
    match u64_at(b, p) {
        Err(e) => Err(e),
        Ok((n, q)) => match take_at(b, q, n as int) {
            Err(e) => Err(e),
            Ok(r) => {
                let bytes = b.subrange(q, r);
                if valid_utf8(bytes) {
                    Ok((decode_utf8(bytes), r))
                } else {
                    Err(Failure::InvalidUtf8)
                }
            },
        },
    }
}

/// Calls `String::from_utf8`: `Some` exactly when the bytes are valid UTF-8, holding the
/// decoded text.
#[verifier::external_body]
fn string_from_utf8(bytes: &[u8]) -> (r: Option<String>)
    ensures
        r is Some == valid_utf8(bytes@),
        r matches Some(s) ==> s@ == decode_utf8(bytes@),
{
    String::from_utf8(bytes.to_vec()).ok()
}

/// A little-endian, bounds-checked cursor over the file bytes.
struct Reader<'a> {
    buf: &'a [u8],
    pos: usize,
}

impl<'a> Reader<'a> {
    fn new(buf: &'a [u8]) -> (r: Self)
        ensures
            r.buf == buf,
            r.pos == 0,
    {
        Self { buf, pos: 0 }
    }

    fn pos(&self) -> (p: usize)
        ensures
            p == self.pos,
    {
        self.pos
    }

    fn take(&mut self, n: usize) -> (r: Result<&'a [u8], GgufError>)
        requires
            old(self).pos <= old(self).buf@.len(),
        ensures
            final(self).buf == old(self).buf,
            final(self).pos <= final(self).buf@.len(),
            match (r, take_at(old(self).buf@, old(self).pos as int, n as int)) {
                (Ok(s), Ok(q)) => final(self).pos == q && s@ == old(self).buf@.subrange(
                    old(self).pos as int,
                    q,
                ),
                (Err(e), Err(f)) => e@ == f && final(self).pos == old(self).pos,
                _ => false,
            },
    {
        if n > self.buf.len() - self.pos {
            return Err(GgufError::UnexpectedEof { needed: n, pos: self.pos, len: self.buf.len() });
        }
        let end = self.pos + n;
        let s = &self.buf[self.pos..end];
        self.pos = end;
        Ok(s)
    }

    fn u8(&mut self) -> (r: Result<u8, GgufError>)
        requires
            old(self).pos <= old(self).buf@.len(),
        ensures
            final(self).buf == old(self).buf,
            final(self).pos <= final(self).buf@.len(),
            match (r, u8_at(old(self).buf@, old(self).pos as int)) {
                (Ok(v), Ok((w, q))) => v == w && final(self).pos == q,
                (Err(e), Err(f)) => e@ == f,
                _ => false,
            },
    {
        let s = self.take(1)?;
        Ok(s[0])
    }

    fn u16(&mut self) -> (r: Result<u16, GgufError>)
        requires
            old(self).pos <= old(self).buf@.len(),
        ensures
            final(self).buf == old(self).buf,
            final(self).pos <= final(self).buf@.len(),
            match (r, u16_at(old(self).buf@, old(self).pos as int)) {
                (Ok(v), Ok((w, q))) => v == w && final(self).pos == q,
                (Err(e), Err(f)) => e@ == f,
                _ => false,
            },
    {
        let s = self.take(2)?;
        Ok((s[0] as u16) + (s[1] as u16) * 256)
    }

    fn u32(&mut self) -> (r: Result<u32, GgufError>)
        requires
            old(self).pos <= old(self).buf@.len(),
        ensures
            final(self).buf == old(self).buf,
            final(self).pos <= final(self).buf@.len(),
            match (r, u32_at(old(self).buf@, old(self).pos as int)) {
                (Ok(v), Ok((w, q))) => v == w && final(self).pos == q,
                (Err(e), Err(f)) => e@ == f,
                _ => false,
            },
    {
        let s = self.take(4)?;
        Ok((s[0] as u32) + (s[1] as u32) * 0x100 + (s[2] as u32) * 0x10000 + (s[3] as u32)
            * 0x1000000)
    }

    fn u64(&mut self) -> (r: Result<u64, GgufError>)
        requires
            old(self).pos <= old(self).buf@.len(),
        ensures
            final(self).buf == old(self).buf,
            final(self).pos <= final(self).buf@.len(),
            match (r, u64_at(old(self).buf@, old(self).pos as int)) {
                (Ok(v), Ok((w, q))) => v == w && final(self).pos == q,
                (Err(e), Err(f)) => e@ == f,
                _ => false,
            },
    {
        let s = self.take(8)?;
        let lo = (s[0] as u64) + (s[1] as u64) * 0x100 + (s[2] as u64) * 0x10000 + (s[3] as u64)
            * 0x1000000;
        let hi = (s[4] as u64) + (s[5] as u64) * 0x100 + (s[6] as u64) * 0x10000 + (s[7] as u64)
            * 0x1000000;
        Ok(lo + hi * 0x1_0000_0000)
    }

    fn gguf_string(&mut self) -> (r: Result<String, GgufError>)
        requires
            old(self).pos <= old(self).buf@.len(),
        ensures
            final(self).buf == old(self).buf,
            final(self).pos <= final(self).buf@.len(),
            match (r, string_at(old(self).buf@, old(self).pos as int)) {
                (Ok(v), Ok((w, q))) => v@ == w && final(self).pos == q,
                (Err(e), Err(f)) => e@ == f,
                _ => false,
            },
    {
        let len = self.u64()?;
        let n: usize = if len <= usize::MAX as u64 {
            len as usize
        } else {
            usize::MAX
        };
        if len > (self.buf.len() - self.pos) as u64 {
            return Err(GgufError::UnexpectedEof { needed: n, pos: self.pos, len: self.buf.len() });
        }
        let bytes = self.take(n)?;
        match string_from_utf8(bytes) {
            Some(s) => Ok(s),
            None => Err(GgufError::InvalidUtf8),
        }
    }
}

// ---------------------------------------------------------------------------------------------
// Metadata values
// ---------------------------------------------------------------------------------------------

/// GGUF metadata value type enum (the on-disk discriminants).
#[derive(Clone, Copy, Debug, PartialEq, Eq, Structural)]
pub enum ValueType {
    U8,
    I8,
    U16,
    I16,
    U32,
    I32,
    F32,
    Bool,
    String,
    Array,
    U64,
    I64,
    F64,
}

/// The value type an on-disk discriminant stands for.
pub open spec fn value_type_of(v: u32) -> Option<ValueType> {
    match v {
        0 => Some(ValueType::U8),
        1 => Some(ValueType::I8),
        2 => Some(ValueType::U16),
        3 => Some(ValueType::I16),
        4 => Some(ValueType::U32),
        5 => Some(ValueType::I32),
        6 => Some(ValueType::F32),
        7 => Some(ValueType::Bool),
        8 => Some(ValueType::String),
        9 => Some(ValueType::Array),
        10 => Some(ValueType::U64),
        11 => Some(ValueType::I64),
        12 => Some(ValueType::F64),
        _ => None,
    }
}

impl ValueType {
    pub fn from_u32(v: u32) -> (r: Result<Self, GgufError>)
        ensures
            match (r, value_type_of(v)) {
                (Ok(t), Some(u)) => t == u,
                (Err(e), None) => e@ == Failure::UnknownValueType(v),
                _ => false,
            },
    {
        match v {
            0 => Ok(Self::U8),
            1 => Ok(Self::I8),
            2 => Ok(Self::U16),
            3 => Ok(Self::I16),
            4 => Ok(Self::U32),
            5 => Ok(Self::I32),
            6 => Ok(Self::F32),
            7 => Ok(Self::Bool),
            8 => Ok(Self::String),
            9 => Ok(Self::Array),
            10 => Ok(Self::U64),
            11 => Ok(Self::I64),
            12 => Ok(Self::F64),
            other => Err(GgufError::UnknownValueType(other)),
        }
    }
}

/// A parsed GGUF metadata value. Floating-point values are kept as their IEEE-754 bit
/// patterns (`F32` holds the bits of an `f32`, `F64` those of an `f64`).
#[derive(Debug)]
pub enum MetaValue {
    U8(u8),
    I8(i8),
    U16(u16),
    I16(i16),
    U32(u32),
    I32(i32),
    U64(u64),
    I64(i64),
    F32(u32),
    F64(u64),
    Bool(bool),
    String(String),
    /// A homogeneous array. `elem_type` is the raw value-type discriminant of items.
    Array { elem_type: u32, items: Vec<MetaValue> },
}

/// A metadata value as plain values.
pub enum Meta {
    U8(u8),
    I8(i8),
    U16(u16),
    I16(i16),
    U32(u32),
    I32(i32),
    U64(u64),
    I64(i64),
    F32(u32),
    F64(u64),
    Bool(bool),
    Str(Seq<char>),
    Array(u32, Seq<Meta>),
}

/// A metadata value as plain values.
pub open spec fn meta_view(v: MetaValue) -> Meta
    decreases v,
{
    match v {
        MetaValue::U8(x) => Meta::U8(x),
        MetaValue::I8(x) => Meta::I8(x),
        MetaValue::U16(x) => Meta::U16(x),
        MetaValue::I16(x) => Meta::I16(x),
        MetaValue::U32(x) => Meta::U32(x),
        MetaValue::I32(x) => Meta::I32(x),
        MetaValue::U64(x) => Meta::U64(x),
        MetaValue::I64(x) => Meta::I64(x),
        MetaValue::F32(x) => Meta::F32(x),
        MetaValue::F64(x) => Meta::F64(x),
        MetaValue::Bool(x) => Meta::Bool(x),
        MetaValue::String(s) => Meta::Str(s@),
        MetaValue::Array { elem_type, items } => Meta::Array(
            elem_type,
            Seq::new(
                items@.len(),
                |i: int|
                    {
                        if 0 <= i < items@.len() {
                            proof {
                                assert(decreases_to!(items => items@));
                                assert(decreases_to!(items@ => items@[i]));
                            }
                            meta_view(items@[i])
                        } else {
                            Meta::Bool(false)
                        }
                    },
            ),
        ),
    }
}

/// Metadata values as plain values.
pub open spec fn metas_view(s: Seq<MetaValue>) -> Seq<Meta> {
    s.map_values(|v: MetaValue| meta_view(v))
}

proof fn lemma_array_view(elem_type: u32, items: Vec<MetaValue>)
    ensures
        meta_view(MetaValue::Array { elem_type, items }) == Meta::Array(elem_type, metas_view(items@)),
{
    let v = MetaValue::Array { elem_type, items };
    match meta_view(v) {
        Meta::Array(e, s) => {
            assert(s =~= metas_view(items@));
        },
        _ => {},
    }
}

/// `r` with `acc` put in front of its items.
pub open spec fn prepend<T>(acc: Seq<T>, r: Result<(Seq<T>, int), Failure>) -> Result<
    (Seq<T>, int),
    Failure,
> {
    match r {
        Ok((s, q)) => Ok((acc + s, q)),
        Err(e) => Err(e),
    }
}

/// A value of type `vt` at `p`, and the position after it.
pub open spec fn value_at(b: Seq<u8>, p: int, vt: ValueType) -> Result<(Meta, int), Failure>
    decreases b.len() - p, 0int,
{
    match vt {
        ValueType::U8 => match u8_at(b, p) {
            Ok((x, q)) => Ok((Meta::U8(x), q)),
            Err(e) => Err(e),
        },
        ValueType::I8 => match u8_at(b, p) {
            Ok((x, q)) => Ok((Meta::I8(x as i8), q)),
            Err(e) => Err(e),
        },
        ValueType::U16 => match u16_at(b, p) {
            Ok((x, q)) => Ok((Meta::U16(x), q)),
            Err(e) => Err(e),
        },
        ValueType::I16 => match u16_at(b, p) {
            Ok((x, q)) => Ok((Meta::I16(x as i16), q)),
            Err(e) => Err(e),
        },
        ValueType::U32 => match u32_at(b, p) {
            Ok((x, q)) => Ok((Meta::U32(x), q)),
            Err(e) => Err(e),
        },
        ValueType::I32 => match u32_at(b, p) {
            Ok((x, q)) => Ok((Meta::I32(x as i32), q)),
            Err(e) => Err(e),
        },
        ValueType::F32 => match u32_at(b, p) {
            Ok((x, q)) => Ok((Meta::F32(x), q)),
            Err(e) => Err(e),
        },
        ValueType::Bool => match u8_at(b, p) {
            Ok((x, q)) => Ok((Meta::Bool(x != 0), q)),
            Err(e) => Err(e),
        },
        ValueType::String => match string_at(b, p) {
            Ok((s, q)) => Ok((Meta::Str(s), q)),
            Err(e) => Err(e),
        },
        ValueType::U64 => match u64_at(b, p) {
            Ok((x, q)) => Ok((Meta::U64(x), q)),
            Err(e) => Err(e),
        },
        ValueType::I64 => match u64_at(b, p) {
            Ok((x, q)) => Ok((Meta::I64(x as i64), q)),
            Err(e) => Err(e),
        },
        ValueType::F64 => match u64_at(b, p) {
            Ok((x, q)) => Ok((Meta::F64(x), q)),
            Err(e) => Err(e),
        },
        ValueType::Array => match u32_at(b, p) {
            Err(e) => Err(e),
            Ok((et, q1)) => match value_type_of(et) {
                None => Err(Failure::UnknownValueType(et)),
                Some(evt) => match u64_at(b, q1) {
                    Err(e) => Err(e),
                    Ok((n, q2)) => match items_at(b, q2, evt, n as nat) {
                        Err(e) => Err(e),
                        Ok((items, q3)) => Ok((Meta::Array(et, items), q3)),
                    },
                },
            },
        },
    }
}

/// `n` values of type `vt` from `p` on, and the position after them.
pub open spec fn items_at(b: Seq<u8>, p: int, vt: ValueType, n: nat) -> Result<
    (Seq<Meta>, int),
    Failure,
>
    decreases b.len() - p, n,
{
    if n == 0 {
        Ok((Seq::empty(), p))
    } else {
        match value_at(b, p, vt) {
            Err(e) => Err(e),
            Ok((v, q)) => {
                if q < p || q > b.len() {
                    // never taken: a value read ends after its start and within the buffer
                    Err(Failure::InvalidUtf8)
                } else {
                    prepend(seq![v], items_at(b, q, vt, (n - 1) as nat))
                }
            },
        }
    }
}

pub proof fn lemma_value_at_advances(b: Seq<u8>, p: int, vt: ValueType)
    requires
        0 <= p <= b.len(),
    ensures
        value_at(b, p, vt) matches Ok((v, q)) ==> p < q <= b.len(),
    decreases b.len() - p, 0int,
{
    if vt == ValueType::Array {
        match u32_at(b, p) {
            Ok((et, q1)) => match value_type_of(et) {
                Some(evt) => match u64_at(b, q1) {
                    Ok((n, q2)) => {
                        lemma_items_at_advances(b, q2, evt, n as nat);
                    },
                    _ => {},
                },
                _ => {},
            },
            _ => {},
        }
    }
}

pub proof fn lemma_items_at_advances(b: Seq<u8>, p: int, vt: ValueType, n: nat)
    requires
        0 <= p <= b.len(),
    ensures
        items_at(b, p, vt, n) matches Ok((v, q)) ==> p <= q <= b.len() && v.len() == n,
    decreases b.len() - p, n,
{
    if n > 0 {
        lemma_value_at_advances(b, p, vt);
        match value_at(b, p, vt) {
            Ok((v, q)) => {
                lemma_items_at_advances(b, q, vt, (n - 1) as nat);
            },
            _ => {},
        }
    }
}

/// Reads one value of type `vt` at the reader's position.
fn read_value(r: &mut Reader, vt: ValueType) -> (res: Result<MetaValue, GgufError>)
    requires
        old(r).pos <= old(r).buf@.len(),
    ensures
        final(r).buf == old(r).buf,
        final(r).pos <= final(r).buf@.len(),
        match (res, value_at(old(r).buf@, old(r).pos as int, vt)) {
            (Ok(v), Ok((w, q))) => meta_view(v) == w && final(r).pos == q,
            (Err(e), Err(f)) => e@ == f,
            _ => false,
        },
    decreases old(r).buf@.len() - old(r).pos,
{
    let ghost b = r.buf@;
    let ghost buf0 = r.buf;
    let ghost p0 = r.pos as int;
    match vt {
        ValueType::U8 => Ok(MetaValue::U8(r.u8()?)),
        ValueType::I8 => Ok(MetaValue::I8(#[verifier::truncate] (r.u8()? as i8))),
        ValueType::U16 => Ok(MetaValue::U16(r.u16()?)),
        ValueType::I16 => Ok(MetaValue::I16(#[verifier::truncate] (r.u16()? as i16))),
        ValueType::U32 => Ok(MetaValue::U32(r.u32()?)),
        ValueType::I32 => Ok(MetaValue::I32(#[verifier::truncate] (r.u32()? as i32))),
        ValueType::F32 => Ok(MetaValue::F32(r.u32()?)),
        ValueType::Bool => Ok(MetaValue::Bool(r.u8()? != 0)),
        ValueType::String => Ok(MetaValue::String(r.gguf_string()?)),
        ValueType::U64 => Ok(MetaValue::U64(r.u64()?)),
        ValueType::I64 => Ok(MetaValue::I64(#[verifier::truncate] (r.u64()? as i64))),
        ValueType::F64 => Ok(MetaValue::F64(r.u64()?)),
        ValueType::Array => {
            let elem_type = r.u32()?;
            let ghost q1 = r.pos as int;
            let elem_vt = ValueType::from_u32(elem_type)?;
            let len = r.u64()?;
            let ghost q2 = r.pos as int;
            assert(u32_at(b, p0) == Ok::<(u32, int), Failure>((elem_type, q1)));
            assert(u64_at(b, q1) == Ok::<(u64, int), Failure>((len, q2)));
            let mut items: Vec<MetaValue> = Vec::new();
            let mut i: u64 = 0;
            assert(metas_view(items@) =~= Seq::<Meta>::empty());
            while i < len
                invariant
                    r.buf@ == b,
                    r.buf == buf0,
                    buf0 == old(r).buf,
                    b == old(r).buf@,
                    p0 == old(r).pos,
                    vt == ValueType::Array,
                    value_type_of(elem_type) == Some(elem_vt),
                    u32_at(b, p0) == Ok::<(u32, int), Failure>((elem_type, q1)),
                    u64_at(b, q1) == Ok::<(u64, int), Failure>((len, q2)),
                    p0 < q2 <= r.pos <= b.len(),
                    i <= len,
                    items_at(b, q2, elem_vt, len as nat) == prepend(
                        metas_view(items@),
                        items_at(b, r.pos as int, elem_vt, (len - i) as nat),
                    ),
                decreases len - i,
            {
                let ghost before = metas_view(items@);
                let ghost pi = r.pos as int;
                proof {
                    lemma_value_at_advances(b, pi, elem_vt);
                }
                let v = match read_value(r, elem_vt) {
                    Ok(v) => v,
                    Err(e) => {
                        assert(items_at(b, pi, elem_vt, (len - i) as nat) == Err::<
                            (Seq<Meta>, int),
                            Failure,
                        >(e@));
                        assert(items_at(b, q2, elem_vt, len as nat) == Err::<
                            (Seq<Meta>, int),
                            Failure,
                        >(e@));
                        assert(value_type_of(elem_type) == Some(elem_vt));
                        assert(vt == ValueType::Array);
                        assert(value_at(b, p0, vt) == Err::<(Meta, int), Failure>(e@));
                        return Err(e);
                    },
                };
                let ghost mv = meta_view(v);
                items.push(v);
                assert(metas_view(items@) =~= before.push(mv));
                assert(before.push(mv) =~= before + seq![mv]);
                proof {
                    assert forall|t: Seq<Meta>| #![auto] before + (seq![mv] + t) == before.push(mv) + t by {
                        assert(before + (seq![mv] + t) =~= before.push(mv) + t);
                    }
                }
                i += 1;
            }
            assert(metas_view(items@) + Seq::<Meta>::empty() =~= metas_view(items@));
            proof {
                lemma_array_view(elem_type, items);
            }
            Ok(MetaValue::Array { elem_type, items })
        },
    }
}

// ---------------------------------------------------------------------------------------------
// The whole file
// ---------------------------------------------------------------------------------------------

/// One key/value pair at `p`: a string key, a `u32` value type and a value of that type.
pub open spec fn kv_at(b: Seq<u8>, p: int) -> Result<((Seq<char>, Meta), int), Failure> {
    match string_at(b, p) {
        Err(e) => Err(e),
        Ok((key, q1)) => match u32_at(b, q1) {
            Err(e) => Err(e),
            Ok((raw, q2)) => match value_type_of(raw) {
                None => Err(Failure::UnknownValueType(raw)),
                Some(vt) => match value_at(b, q2, vt) {
                    Err(e) => Err(e),
                    Ok((v, q3)) => Ok(((key, v), q3)),
                },
            },
        },
    }
}

/// `n` key/value pairs from `p` on.
pub open spec fn kvs_at(b: Seq<u8>, p: int, n: nat) -> Result<(Seq<(Seq<char>, Meta)>, int), Failure>
    decreases n,
{
    if n == 0 {
        Ok((Seq::empty(), p))
    } else {
        match kv_at(b, p) {
            Err(e) => Err(e),
            Ok((kv, q)) => prepend(seq![kv], kvs_at(b, q, (n - 1) as nat)),
        }
    }
}

/// `k` dimensions (`u64` each) from `p` on.
pub open spec fn dims_at(b: Seq<u8>, p: int, k: nat) -> Result<(Seq<u64>, int), Failure>
    decreases k,
{
    if k == 0 {
        Ok((Seq::empty(), p))
    } else {
        match u64_at(b, p) {
            Err(e) => Err(e),
            Ok((d, q)) => prepend(seq![d], dims_at(b, q, (k - 1) as nat)),
        }
    }
}

/// One tensor-table entry as read: name, dimensions, raw ggml type, offset.
pub type RawTensor = (Seq<char>, Seq<u64>, u32, u64);

/// One tensor-table entry at `p`: a string name, a `u32` dimension count, the dimensions, a
/// `u32` ggml type and a `u64` offset into the data section.
pub open spec fn raw_tensor_at(b: Seq<u8>, p: int) -> Result<(RawTensor, int), Failure> {
    match string_at(b, p) {
        Err(e) => Err(e),
        Ok((name, q1)) => match u32_at(b, q1) {
            Err(e) => Err(e),
            Ok((nd, q2)) => match dims_at(b, q2, nd as nat) {
                Err(e) => Err(e),
                Ok((dims, q3)) => match u32_at(b, q3) {
                    Err(e) => Err(e),
                    Ok((ty, q4)) => match u64_at(b, q4) {
                        Err(e) => Err(e),
                        Ok((off, q5)) => Ok(((name, dims, ty, off), q5)),
                    },
                },
            },
        },
    }
}

/// `n` tensor-table entries from `p` on.
pub open spec fn raw_tensors_at(b: Seq<u8>, p: int, n: nat) -> Result<(Seq<RawTensor>, int), Failure>
    decreases n,
{
    if n == 0 {
        Ok((Seq::empty(), p))
    } else {
        match raw_tensor_at(b, p) {
            Err(e) => Err(e),
            Ok((t, q)) => prepend(seq![t], raw_tensors_at(b, q, (n - 1) as nat)),
        }
    }
}

/// The metadata as a map: later entries for a key replace earlier ones.
pub open spec fn meta_map(kvs: Seq<(Seq<char>, Meta)>) -> Map<Seq<char>, Meta>
    decreases kvs.len(),
{
    if kvs.len() == 0 {
        Map::empty()
    } else {
        meta_map(kvs.drop_last()).insert(kvs.last().0, kvs.last().1)
    }
}

/// The data-section alignment: `general.alignment` when it is a `u32` or `u64`, else 32.
pub open spec fn alignment_of(m: Map<Seq<char>, Meta>) -> u64 {
    if m.dom().contains("general.alignment"@) {
        match m["general.alignment"@] {
            Meta::U32(v) => v as u64,
            Meta::U64(v) => v,
            _ => DEFAULT_ALIGNMENT,
        }
    } else {
        DEFAULT_ALIGNMENT
    }
}

/// `x` rounded up to a multiple of `a` (unchanged when `a` is zero).
pub open spec fn align_up_spec(x: int, a: int) -> int {
    if a == 0 || x % a == 0 {
        x
    } else {
        x - x % a + a
    }
}

/// The product of the dimensions (1 for none).
pub open spec fn dims_product(dims: Seq<u64>) -> int
    decreases dims.len(),
{
    if dims.len() == 0 {
        1
    } else {
        dims_product(dims.drop_last()) * dims.last()
    }
}

/// A tensor as plain values: name, dimensions, type, offset, absolute data start, data length.
pub type TensorModel = (Seq<char>, Seq<u64>, GgmlType, u64, int, int);

/// A table entry checked against the file: its type must be modeled and a whole number of
/// blocks, and its data must lie inside the file.
pub open spec fn tensor_at(t: RawTensor, data_offset: int, file_len: int) -> Result<TensorModel, Failure> {
    let ty = ggml_type_of(t.2);
    match byte_size_of(ty, dims_product(t.1)) {
        None => Err(Failure::UnknownTensorType { name: t.0, ty: t.2 }),
        Some(len) => {
            let start = data_offset + t.3;
            if start + len > file_len {
                Err(Failure::TensorOutOfBounds { name: t.0 })
            } else {
                Ok((t.0, t.1, ty, t.3, start, len))
            }
        },
    }
}

/// All table entries checked in order; the first failure wins.
pub open spec fn tensors_of(ts: Seq<RawTensor>, data_offset: int, file_len: int) -> Result<Seq<TensorModel>, Failure>
    decreases ts.len(),
{
    if ts.len() == 0 {
        Ok(Seq::empty())
    } else {
        match tensor_at(ts[0], data_offset, file_len) {
            Err(e) => Err(e),
            Ok(t) => match tensors_of(ts.drop_first(), data_offset, file_len) {
                Err(e) => Err(e),
                Ok(rest) => Ok(seq![t] + rest),
            },
        }
    }
}

/// A parsed file as plain values.
pub struct GgufModel {
    pub version: u32,
    pub alignment: u64,
    /// The metadata entries in file order.
    pub kvs: Seq<(Seq<char>, Meta)>,
    pub tensors: Seq<TensorModel>,
    pub data_offset: int,
}

/// The magic bytes `GGUF`.
pub open spec fn gguf_magic() -> Seq<u8> {
    seq![0x47u8, 0x47u8, 0x55u8, 0x46u8]
}

/// A GGUF file: the magic `GGUF`, a `u32` version (2 or 3), the `u64` tensor and key/value
/// counts, the key/value pairs, the tensor table, then the tensor data from the next
/// alignment boundary on.
pub open spec fn parse_gguf(b: Seq<u8>) -> Result<GgufModel, Failure> {
    if b.len() < 4 {
        Err(eof(4, 0, b.len() as int))
    } else if b.subrange(0, 4) != gguf_magic() {
        Err(Failure::BadMagic(b.subrange(0, 4)))
    } else {
        match u32_at(b, 4) {
            Err(e) => Err(e),
            Ok((version, p1)) => {
                if version != 2 && version != 3 {
                    Err(Failure::UnsupportedVersion(version))
                } else {
                    match u64_at(b, p1) {
                        Err(e) => Err(e),
                        Ok((tc, p2)) => match u64_at(b, p2) {
                            Err(e) => Err(e),
                            Ok((kc, p3)) => match kvs_at(b, p3, kc as nat) {
                                Err(e) => Err(e),
                                Ok((kvs, p4)) => {
                                    let alignment = alignment_of(meta_map(kvs));
                                    match raw_tensors_at(b, p4, tc as nat) {
                                        Err(e) => Err(e),
                                        Ok((raws, p5)) => {
                                            let data_offset = align_up_spec(p5, alignment as int);
                                            match tensors_of(raws, data_offset, b.len() as int) {
                                                Err(e) => Err(e),
                                                Ok(ts) => Ok(
                                                    GgufModel {
                                                        version,
                                                        alignment,
                                                        kvs,
                                                        tensors: ts,
                                                        data_offset,
                                                    },
                                                ),
                                            }
                                        },
                                    }
                                },
                            },
                        },
                    }
                }
            },
        }
    }
}

// ---------------------------------------------------------------------------------------------
// Parsed file
// ---------------------------------------------------------------------------------------------

/// Description of one tensor in the file.
#[derive(Debug)]
pub struct TensorInfo {
    pub name: String,
    /// Dimensions in GGUF order (fastest-varying first).
    pub dims: Vec<u64>,
    pub ggml_type: GgmlType,
    /// Offset relative to the start of the tensor-data section.
    pub offset: u64,
    /// Absolute byte offset of this tensor's data within the file.
    pub data_start: u64,
    /// Length of this tensor's data in bytes.
    pub data_len: u64,
}

impl View for TensorInfo {
    type V = TensorModel;

    open spec fn view(&self) -> TensorModel {
        (
            self.name@,
            self.dims@,
            self.ggml_type,
            self.offset,
            self.data_start as int,
            self.data_len as int,
        )
    }
}

impl TensorInfo {
    /// The number of elements: the product of the dimensions.
    pub fn n_elements(&self) -> (n: u64)
        requires
            dims_product(self.dims@) <= u64::MAX,
        ensures
            n == dims_product(self.dims@),
    {
        let mut k: usize = 0;
        while k < self.dims.len()
            invariant
                k <= self.dims@.len(),
                forall|j: int| 0 <= j < k ==> self.dims@[j] != 0,
            decreases self.dims@.len() - k,
        {
            if self.dims[k] == 0 {
                proof {
                    lemma_zero_dim_product(self.dims@, k as int);
                }
                return 0;
            }
            k += 1;
        }
        proof {
            lemma_dims_product_pos(self.dims@);
        }
        let mut n: u64 = 1;
        let mut i: usize = 0;
        while i < self.dims.len()
            invariant
                i <= self.dims@.len(),
                dims_product(self.dims@) <= u64::MAX,
                dims_product(self.dims@) > 0,
                n == dims_product(self.dims@.take(i as int)),
            decreases self.dims@.len() - i,
        {
            proof {
                assert(self.dims@.take(i + 1 as int).drop_last() =~= self.dims@.take(i as int));
                lemma_dims_product_prefix(self.dims@, i + 1);
            }
            n = n * self.dims[i];
            i += 1;
        }
        assert(self.dims@.take(i as int) =~= self.dims@);
        n
    }
}

/// With no zero dimension the product is positive.
proof fn lemma_dims_product_pos(dims: Seq<u64>)
    requires
        forall|j: int| 0 <= j < dims.len() ==> dims[j] != 0,
    ensures
        dims_product(dims) > 0,
    decreases dims.len(),
{
    if dims.len() > 0 {
        lemma_dims_product_pos(dims.drop_last());
        let a = dims_product(dims.drop_last());
        let d = dims.last() as int;
        assert(a * d > 0) by (nonlinear_arith)
            requires
                a > 0,
                d > 0,
        ;
    }
}

/// A prefix of the dimensions never has a larger product than all of them, unless a later
/// dimension is zero.
proof fn lemma_dims_product_prefix(dims: Seq<u64>, k: int)
    requires
        0 <= k <= dims.len(),
    ensures
        dims_product(dims) == 0 || dims_product(dims.take(k)) <= dims_product(dims),
        dims_product(dims.take(k)) >= 0,
    decreases dims.len() - k,
{
    lemma_dims_product_nonneg(dims);
    lemma_dims_product_nonneg(dims.take(k));
    if k < dims.len() {
        lemma_dims_product_prefix(dims, k + 1);
        let a = dims_product(dims.take(k));
        assert(dims.take(k + 1).drop_last() =~= dims.take(k));
        let d = dims[k] as int;
        assert(dims_product(dims.take(k + 1)) == a * d);
        if d == 0 {
            assert(a * d == 0) by (nonlinear_arith)
                requires
                    d == 0,
            ;
            lemma_zero_dim_product(dims, k);
        } else {
            assert(a * d >= a) by (nonlinear_arith)
                requires
                    a >= 0,
                    d >= 1,
            ;
        }
    } else {
        assert(dims.take(k) =~= dims);
    }
}

proof fn lemma_dims_product_nonneg(dims: Seq<u64>)
    ensures
        dims_product(dims) >= 0,
    decreases dims.len(),
{
    if dims.len() > 0 {
        lemma_dims_product_nonneg(dims.drop_last());
        let a = dims_product(dims.drop_last());
        let d = dims.last() as int;
        assert(a * d >= 0) by (nonlinear_arith)
            requires
                a >= 0,
                d >= 0,
        ;
    }
}

/// A zero dimension makes the whole product zero.
proof fn lemma_zero_dim_product(dims: Seq<u64>, k: int)
    requires
        0 <= k < dims.len(),
        dims[k] == 0,
    ensures
        dims_product(dims) == 0,
    decreases dims.len(),
{
    if k < dims.len() - 1 {
        lemma_zero_dim_product(dims.drop_last(), k);
        assert(dims_product(dims.drop_last()) * dims.last() == 0);
    } else {
        assert(dims_product(dims.drop_last()) * 0 == 0);
    }
}

/// Products at or above this bound make every tensor type's data larger than any file.
pub const PRODUCT_CAP: u128 = 0x4_0000_0000_0000_0000;

/// The product of the dimensions: `(exact, low)` where `exact` is the product when it is below
/// [`PRODUCT_CAP`] and `low` is the product modulo 256.
fn dims_product_info(dims: &Vec<u64>) -> (r: (Option<u128>, u64))
    ensures
        r.1 == dims_product(dims@) % 256,
        r.0 matches Some(v) ==> v == dims_product(dims@) && v < PRODUCT_CAP,
        r.0 is None ==> dims_product(dims@) >= PRODUCT_CAP,
{
    let mut zero = false;
    let mut sat = false;
    let mut p: u128 = 1;
    let mut low: u64 = 1;
    let mut i: usize = 0;
    while i < dims.len()
        invariant
            i <= dims@.len(),
            low == dims_product(dims@.take(i as int)) % 256,
            zero ==> dims_product(dims@.take(i as int)) == 0,
            !zero && !sat ==> p == dims_product(dims@.take(i as int)) && p < PRODUCT_CAP,
            !zero && sat ==> dims_product(dims@.take(i as int)) >= PRODUCT_CAP,
        decreases dims@.len() - i,
    {
        let d = dims[i];
        let ghost prev = dims_product(dims@.take(i as int));
        proof {
            assert(dims@.take(i + 1 as int).drop_last() =~= dims@.take(i as int));
            assert(dims_product(dims@.take(i + 1 as int)) == prev * d);
            lemma_dims_product_nonneg(dims@.take(i as int));
            vstd::arithmetic::div_mod::lemma_mul_mod_noop(prev, d as int, 256);
        }
        assert(low * (d % 256) < 0x10000) by (nonlinear_arith)
            requires
                low < 256,
                d % 256 < 256,
        ;
        low = (low * (d % 256)) % 256;
        if d == 0 {
            zero = true;
            assert(prev * 0 == 0);
        } else if !zero && !sat {
            match p.checked_mul(d as u128) {
                Some(x) => {
                    if x >= PRODUCT_CAP {
                        sat = true;
                    } else {
                        p = x;
                    }
                },
                None => {
                    sat = true;
                },
            }
        } else if zero {
            assert(prev * d == 0);
        } else {
            assert(prev * d >= prev) by (nonlinear_arith)
                requires
                    prev >= 0,
                    d >= 1,
            ;
        }
        i += 1;
    }
    assert(dims@.take(i as int) =~= dims@);
    if zero {
        (Some(0), low)
    } else if sat {
        (None, low)
    } else {
        (Some(p), low)
    }
}

/// For the block sizes in use (1, 32 and 256, all dividing 256), divisibility can be read off
/// the remainder modulo 256.
proof fn lemma_mod_block(n: int, e: int)
    requires
        n >= 0,
        e == 1 || e == 32 || e == 256,
    ensures
        (n % 256) % e == n % e,
{
    vstd::arithmetic::div_mod::lemma_mod_mod(n, e, 256int / e);
}

/// A product at or above [`PRODUCT_CAP`] gives more data bytes than a `u64` can count.
proof fn lemma_capped_too_large(n: int, t: GgmlType)
    requires
        n >= PRODUCT_CAP,
        block_of(t) is Some,
    ensures
        ({
            let (e, b) = block_of(t).unwrap();
            (n / (e as int)) * (b as int) > u64::MAX
        }),
{
    let (e, b) = block_of(t).unwrap();
    let e = e as int;
    let b = b as int;
    assert(n / e >= (PRODUCT_CAP as int) / e) by {
        vstd::arithmetic::div_mod::lemma_div_is_ordered(PRODUCT_CAP as int, n, e);
    }
    let q = n / e;
    assert(q * b > u64::MAX) by (nonlinear_arith)
        requires
            q >= PRODUCT_CAP as int / e,
            (e == 1 && b >= 1) || (e == 32 && b >= 18) || (e == 256 && b >= 84),
    ;
}

/// Checks one tensor-table entry against the file.
fn tensor_info(name: &String, dims: &Vec<u64>, raw_type: u32, offset: u64, data_offset: u64, file_len: u64) -> (r: Result<TensorInfo, GgufError>)
    ensures
        match (r, tensor_at((name@, dims@, raw_type, offset), data_offset as int, file_len as int)) {
            (Ok(t), Ok(m)) => t@ == m,
            (Err(e), Err(f)) => e@ == f,
            _ => false,
        },
{
    let ghost raw: RawTensor = (name@, dims@, raw_type, offset);
    let ty = GgmlType::from_u32(raw_type);
    let (e, bsz) = match ty.block() {
        Some(b) => b,
        None => return Err(GgufError::UnknownTensorType { name: name.clone(), ty: raw_type }),
    };
    let (exact, low) = dims_product_info(dims);
    let ghost n = dims_product(dims@);
    proof {
        lemma_dims_product_nonneg(dims@);
        lemma_mod_block(n, e as int);
    }
    if low % e != 0 {
        return Err(GgufError::UnknownTensorType { name: name.clone(), ty: raw_type });
    }
    match exact {
        None => {
            proof {
                lemma_capped_too_large(n, ty);
            }
            Err(GgufError::TensorOutOfBounds { name: name.clone() })
        },
        Some(n_elem) => {
            let blocks: u128 = n_elem / (e as u128);
            assert(blocks * bsz < 0x1_0000_0000_0000_0000_0000) by (nonlinear_arith)
                requires
                    blocks <= n_elem,
                    n_elem < PRODUCT_CAP,
                    bsz <= 292,
            ;
            let len: u128 = blocks * (bsz as u128);
            let start: u128 = (data_offset as u128) + (offset as u128);
            if start + len > file_len as u128 {
                Err(GgufError::TensorOutOfBounds { name: name.clone() })
            } else {
                let dims = copy_dims(dims);
                Ok(
                    TensorInfo {
                        name: name.clone(),
                        dims,
                        ggml_type: ty,
                        offset,
                        data_start: start as u64,
                        data_len: len as u64,
                    },
                )
            }
        },
    }
}


/// A copy of the dimensions.
fn copy_dims(dims: &Vec<u64>) -> (r: Vec<u64>)
    ensures
        r@ == dims@,
{
    let mut r: Vec<u64> = Vec::new();
    let mut i: usize = 0;
    while i < dims.len()
        invariant
            i <= dims@.len(),
            r@ == dims@.take(i as int),
        decreases dims@.len() - i,
    {
        r.push(dims[i]);
        i += 1;
        assert(r@ =~= dims@.take(i as int));
    }
    assert(dims@.take(i as int) =~= dims@);
    r
}

/// Putting `acc` and then `x` in front is putting `acc.push(x)` in front.
proof fn lemma_prepend_push<T>(acc: Seq<T>, x: T, r: Result<(Seq<T>, int), Failure>)
    ensures
        prepend(acc, prepend(seq![x], r)) == prepend(acc.push(x), r),
{
    match r {
        Ok((s, q)) => {
            assert(acc + (seq![x] + s) =~= acc.push(x) + s);
        },
        Err(e) => {},
    }
}

/// Reads `k` dimensions.
fn read_dims(r: &mut Reader, k: u32) -> (res: Result<Vec<u64>, GgufError>)
    requires
        old(r).pos <= old(r).buf@.len(),
    ensures
        final(r).buf == old(r).buf,
        final(r).pos <= final(r).buf@.len(),
        match (res, dims_at(old(r).buf@, old(r).pos as int, k as nat)) {
            (Ok(v), Ok((w, q))) => v@ == w && final(r).pos == q,
            (Err(e), Err(f)) => e@ == f,
            _ => false,
        },
{
    let ghost b = r.buf@;
    let ghost p0 = r.pos as int;
    let mut dims: Vec<u64> = Vec::new();
    let mut j: u32 = 0;
    assert(prepend(dims@, dims_at(b, p0, k as nat)) == dims_at(b, p0, k as nat)) by {
        match dims_at(b, p0, k as nat) {
            Ok((s, q)) => {
                assert(dims@ + s =~= s);
            },
            Err(_) => {},
        }
    }
    while j < k
        invariant
            r.buf == old(r).buf,
            r.buf@ == b,
            r.pos <= b.len(),
            p0 == old(r).pos,
            j <= k,
            dims_at(b, p0, k as nat) == prepend(dims@, dims_at(b, r.pos as int, (k - j) as nat)),
        decreases k - j,
    {
        let ghost pj = r.pos as int;
        let ghost before = dims@;
        let d = match r.u64() {
            Ok(d) => d,
            Err(e) => {
                assert(dims_at(b, pj, (k - j) as nat) == Err::<(Seq<u64>, int), Failure>(e@));
                return Err(e);
            },
        };
        proof {
            lemma_prepend_push(before, d, dims_at(b, r.pos as int, (k - j - 1) as nat));
        }
        dims.push(d);
        j += 1;
    }
    assert(dims@ + Seq::<u64>::empty() =~= dims@);
    Ok(dims)
}

/// Reads one key/value pair.
fn read_kv(r: &mut Reader) -> (res: Result<(String, MetaValue), GgufError>)
    requires
        old(r).pos <= old(r).buf@.len(),
    ensures
        final(r).buf == old(r).buf,
        final(r).pos <= final(r).buf@.len(),
        match (res, kv_at(old(r).buf@, old(r).pos as int)) {
            (Ok(v), Ok((w, q))) => (v.0@, meta_view(v.1)) == w && final(r).pos == q,
            (Err(e), Err(f)) => e@ == f,
            _ => false,
        },
{
    let key = r.gguf_string()?;
    let raw = r.u32()?;
    let vt = ValueType::from_u32(raw)?;
    let val = read_value(r, vt)?;
    Ok((key, val))
}

/// Reads one tensor-table entry.
fn read_raw_tensor(r: &mut Reader) -> (res: Result<(String, Vec<u64>, u32, u64), GgufError>)
    requires
        old(r).pos <= old(r).buf@.len(),
    ensures
        final(r).buf == old(r).buf,
        final(r).pos <= final(r).buf@.len(),
        match (res, raw_tensor_at(old(r).buf@, old(r).pos as int)) {
            (Ok(v), Ok((w, q))) => (v.0@, v.1@, v.2, v.3) == w && final(r).pos == q,
            (Err(e), Err(f)) => e@ == f,
            _ => false,
        },
{
    let name = r.gguf_string()?;
    let n_dims = r.u32()?;
    let dims = read_dims(r, n_dims)?;
    let raw_type = r.u32()?;
    let offset = r.u64()?;
    Ok((name, dims, raw_type, offset))
}

/// `x` rounded up to a multiple of `a` (unchanged when `a` is zero).
fn align_up(x: u64, a: u64) -> (r: u64)
    requires
        x <= i64::MAX,
    ensures
        r == align_up_spec(x as int, a as int),
{
    if a == 0 || x % a == 0 {
        x
    } else {
        if x < a {
            assert(x % a == x) by {
                vstd::arithmetic::div_mod::lemma_small_mod(x as nat, a as nat);
            }
        }
        x - x % a + a
    }
}

/// Key/value pairs as plain values.
pub open spec fn kvs_view(s: Seq<(String, MetaValue)>) -> Seq<(Seq<char>, Meta)> {
    s.map_values(|kv: (String, MetaValue)| (kv.0@, meta_view(kv.1)))
}

/// A key that no entry has is not in the map.
pub proof fn lemma_meta_map_absent(kvs: Seq<(Seq<char>, Meta)>, k: Seq<char>)
    requires
        forall|j: int| 0 <= j < kvs.len() ==> kvs[j].0 != k,
    ensures
        !meta_map(kvs).dom().contains(k),
    decreases kvs.len(),
{
    if kvs.len() > 0 {
        lemma_meta_map_absent(kvs.drop_last(), k);
    }
}

/// The map holds, for a key, the value of the last entry with that key.
pub proof fn lemma_meta_map_last(kvs: Seq<(Seq<char>, Meta)>, j: int)
    requires
        0 <= j < kvs.len(),
        forall|i: int| j < i < kvs.len() ==> kvs[i].0 != kvs[j].0,
    ensures
        meta_map(kvs).dom().contains(kvs[j].0),
        meta_map(kvs)[kvs[j].0] == kvs[j].1,
    decreases kvs.len(),
{
    if j < kvs.len() - 1 {
        let d = kvs.drop_last();
        assert(forall|i: int| j < i < d.len() ==> d[i] == kvs[i]);
        lemma_meta_map_last(d, j);
    }
}

/// The value of the last entry whose key is `key`.
fn lookup<'a>(metadata: &'a Vec<(String, MetaValue)>, key: &str) -> (r: Option<&'a MetaValue>)
    ensures
        match r {
            Some(v) => meta_map(kvs_view(metadata@)).dom().contains(key@) && meta_view(*v)
                == meta_map(kvs_view(metadata@))[key@],
            None => !meta_map(kvs_view(metadata@)).dom().contains(key@),
        },
{
    let ghost kvs = kvs_view(metadata@);
    let mut i: usize = metadata.len();
    while i > 0
        invariant
            i <= metadata@.len(),
            kvs == kvs_view(metadata@),
            forall|j: int| i <= j < metadata@.len() ==> kvs[j].0 != key@,
        decreases i,
    {
        i -= 1;
        if str_eq(metadata[i].0.as_str(), key) {
            proof {
                lemma_meta_map_last(kvs, i as int);
            }
            return Some(&metadata[i].1);
        }
    }
    proof {
        lemma_meta_map_absent(kvs, key@);
    }
    None
}

/// Tensors as plain values.
pub open spec fn tensors_view(s: Seq<TensorInfo>) -> Seq<TensorModel> {
    s.map_values(|t: TensorInfo| t@)
}

/// Tensor-table entries as plain values.
pub open spec fn raws_view(s: Seq<(String, Vec<u64>, u32, u64)>) -> Seq<RawTensor> {
    s.map_values(|t: (String, Vec<u64>, u32, u64)| (t.0@, t.1@, t.2, t.3))
}

/// `r` with `acc` put in front of its tensors.
pub open spec fn prepend_tensors(acc: Seq<TensorModel>, r: Result<Seq<TensorModel>, Failure>) -> Result<
    Seq<TensorModel>,
    Failure,
> {
    match r {
        Ok(s) => Ok(acc + s),
        Err(e) => Err(e),
    }
}

struct Parsed {
    version: u32,
    alignment: u64,
    metadata: Vec<(String, MetaValue)>,
    tensors: Vec<TensorInfo>,
    data_offset: u64,
}

/// Whether `p` holds what `m` describes.
spec fn parsed_is(p: Parsed, m: GgufModel) -> bool {
    &&& p.version == m.version
    &&& p.alignment == m.alignment
    &&& kvs_view(p.metadata@) == m.kvs
    &&& tensors_view(p.tensors@) == m.tensors
    &&& p.data_offset == m.data_offset
}

/// Reads `n` key/value pairs.
fn read_kvs(r: &mut Reader, n: u64) -> (res: Result<Vec<(String, MetaValue)>, GgufError>)
    requires
        old(r).pos <= old(r).buf@.len(),
    ensures
        final(r).buf == old(r).buf,
        final(r).pos <= final(r).buf@.len(),
        match (res, kvs_at(old(r).buf@, old(r).pos as int, n as nat)) {
            (Ok(v), Ok((w, q))) => kvs_view(v@) == w && final(r).pos == q,
            (Err(e), Err(f)) => e@ == f,
            _ => false,
        },
{
    let ghost b = r.buf@;
    let ghost p0 = r.pos as int;
    let mut metadata: Vec<(String, MetaValue)> = Vec::new();
    let mut i: u64 = 0;
    assert(prepend(kvs_view(metadata@), kvs_at(b, p0, n as nat)) == kvs_at(b, p0, n as nat)) by {
        match kvs_at(b, p0, n as nat) {
            Ok((s, q)) => {
                assert(kvs_view(metadata@) + s =~= s);
            },
            Err(_) => {},
        }
    }
    while i < n
        invariant
            r.buf == old(r).buf,
            r.buf@ == b,
            r.pos <= b.len(),
            p0 == old(r).pos,
            i <= n,
            kvs_at(b, p0, n as nat) == prepend(kvs_view(metadata@), kvs_at(b, r.pos as int, (n - i) as nat)),
        decreases n - i,
    {
        let ghost pi = r.pos as int;
        let ghost before = kvs_view(metadata@);
        let kv = match read_kv(r) {
            Ok(kv) => kv,
            Err(e) => {
                assert(kvs_at(b, pi, (n - i) as nat) == Err::<(Seq<(Seq<char>, Meta)>, int), Failure>(e@));
                return Err(e);
            },
        };
        let ghost w = (kv.0@, meta_view(kv.1));
        proof {
            lemma_prepend_push(before, w, kvs_at(b, r.pos as int, (n - i - 1) as nat));
        }
        metadata.push(kv);
        assert(kvs_view(metadata@) =~= before.push(w));
        i += 1;
    }
    assert(kvs_view(metadata@) + Seq::<(Seq<char>, Meta)>::empty() =~= kvs_view(metadata@));
    Ok(metadata)
}

/// Reads `n` tensor-table entries.
fn read_raw_tensors(r: &mut Reader, n: u64) -> (res: Result<Vec<(String, Vec<u64>, u32, u64)>, GgufError>)
    requires
        old(r).pos <= old(r).buf@.len(),
    ensures
        final(r).buf == old(r).buf,
        final(r).pos <= final(r).buf@.len(),
        match (res, raw_tensors_at(old(r).buf@, old(r).pos as int, n as nat)) {
            (Ok(v), Ok((w, q))) => raws_view(v@) == w && final(r).pos == q,
            (Err(e), Err(f)) => e@ == f,
            _ => false,
        },
{
    let ghost b = r.buf@;
    let ghost p0 = r.pos as int;
    let mut raw: Vec<(String, Vec<u64>, u32, u64)> = Vec::new();
    let mut i: u64 = 0;
    assert(prepend(raws_view(raw@), raw_tensors_at(b, p0, n as nat)) == raw_tensors_at(b, p0, n as nat)) by {
        match raw_tensors_at(b, p0, n as nat) {
            Ok((s, q)) => {
                assert(raws_view(raw@) + s =~= s);
            },
            Err(_) => {},
        }
    }
    while i < n
        invariant
            r.buf == old(r).buf,
            r.buf@ == b,
            r.pos <= b.len(),
            p0 == old(r).pos,
            i <= n,
            raw_tensors_at(b, p0, n as nat) == prepend(raws_view(raw@), raw_tensors_at(b, r.pos as int, (n - i) as nat)),
        decreases n - i,
    {
        let ghost pi = r.pos as int;
        let ghost before = raws_view(raw@);
        let t = match read_raw_tensor(r) {
            Ok(t) => t,
            Err(e) => {
                assert(raw_tensors_at(b, pi, (n - i) as nat) == Err::<(Seq<RawTensor>, int), Failure>(e@));
                return Err(e);
            },
        };
        let ghost w = (t.0@, t.1@, t.2, t.3);
        proof {
            lemma_prepend_push(before, w, raw_tensors_at(b, r.pos as int, (n - i - 1) as nat));
        }
        raw.push(t);
        assert(raws_view(raw@) =~= before.push(w));
        i += 1;
    }
    assert(raws_view(raw@) + Seq::<RawTensor>::empty() =~= raws_view(raw@));
    Ok(raw)
}

/// Checks every tensor-table entry against the file, in order.
fn check_tensors(raw: &Vec<(String, Vec<u64>, u32, u64)>, data_offset: u64, file_len: u64) -> (res: Result<Vec<TensorInfo>, GgufError>)
    ensures
        match (res, tensors_of(raws_view(raw@), data_offset as int, file_len as int)) {
            (Ok(v), Ok(w)) => tensors_view(v@) == w,
            (Err(e), Err(f)) => e@ == f,
            _ => false,
        },
{
    let ghost raws = raws_view(raw@);
    let ghost d = data_offset as int;
    let ghost fl = file_len as int;
    let mut tensors: Vec<TensorInfo> = Vec::new();
    let mut k: usize = 0;
    assert(raws.skip(0) =~= raws);
    assert(prepend_tensors(tensors_view(tensors@), tensors_of(raws, d, fl)) == tensors_of(raws, d, fl)) by {
        match tensors_of(raws, d, fl) {
            Ok(s) => {
                assert(tensors_view(tensors@) + s =~= s);
            },
            Err(_) => {},
        }
    }
    while k < raw.len()
        invariant
            k <= raw@.len(),
            raws == raws_view(raw@),
            d == data_offset,
            fl == file_len,
            tensors_of(raws, d, fl) == prepend_tensors(tensors_view(tensors@), tensors_of(raws.skip(k as int), d, fl)),
        decreases raw@.len() - k,
    {
        let ghost before = tensors_view(tensors@);
        let ghost rest = raws.skip(k as int);
        assert(rest[0] == raws[k as int]);
        assert(rest.drop_first() =~= raws.skip(k + 1 as int));
        let t = match tensor_info(&raw[k].0, &raw[k].1, raw[k].2, raw[k].3, data_offset, file_len) {
            Ok(t) => t,
            Err(e) => {
                assert(tensors_of(rest, d, fl) == Err::<Seq<TensorModel>, Failure>(e@));
                return Err(e);
            },
        };
        proof {
            match tensors_of(raws.skip(k + 1 as int), d, fl) {
                Ok(s) => {
                    assert(before + (seq![t@] + s) =~= before.push(t@) + s);
                },
                Err(_) => {},
            }
        }
        tensors.push(t);
        assert(tensors_view(tensors@) =~= before.push(t@));
        k += 1;
    }
    assert(raws.skip(k as int) =~= Seq::<RawTensor>::empty());
    assert(tensors_view(tensors@) + Seq::<TensorModel>::empty() =~= tensors_view(tensors@));
    Ok(tensors)
}

fn parse(buf: &[u8]) -> (res: Result<Parsed, GgufError>)
    requires
        buf@.len() <= i64::MAX,
    ensures
        match (res, parse_gguf(buf@)) {
            (Ok(p), Ok(m)) => parsed_is(p, m),
            (Err(e), Err(f)) => e@ == f,
            _ => false,
        },
{
    let ghost b = buf@;
    let mut r = Reader::new(buf);
    let m = r.take(4)?;
    if !(m[0] == 0x47 && m[1] == 0x47 && m[2] == 0x55 && m[3] == 0x46) {
        let magic: [u8; 4] = [m[0], m[1], m[2], m[3]];
        assert(magic@ =~= b.subrange(0, 4));
        assert(b.subrange(0, 4) != gguf_magic()) by {
            if b.subrange(0, 4) == gguf_magic() {
                assert(b.subrange(0, 4)[0] == gguf_magic()[0]);
                assert(b.subrange(0, 4)[1] == gguf_magic()[1]);
                assert(b.subrange(0, 4)[2] == gguf_magic()[2]);
                assert(b.subrange(0, 4)[3] == gguf_magic()[3]);
            }
        }
        return Err(GgufError::BadMagic(magic));
    }
    assert(b.subrange(0, 4) =~= gguf_magic());
    let version = r.u32()?;
    if version != 2 && version != 3 {
        return Err(GgufError::UnsupportedVersion(version));
    }
    let tensor_count = r.u64()?;
    let kv_count = r.u64()?;
    let metadata = read_kvs(&mut r, kv_count)?;
    let alignment: u64 = match lookup(&metadata, "general.alignment") {
        Some(MetaValue::U32(v)) => *v as u64,
        Some(MetaValue::U64(v)) => *v,
        _ => DEFAULT_ALIGNMENT,
    };
    assert(alignment == alignment_of(meta_map(kvs_view(metadata@))));
    // The tensor table (offsets are relative to the data section, not the file).
    let raw = read_raw_tensors(&mut r, tensor_count)?;
    // The tensor-data section starts at the next `alignment` boundary.
    let data_offset = align_up(r.pos() as u64, alignment);
    let tensors = check_tensors(&raw, data_offset, buf.len() as u64)?;
    Ok(Parsed { version, alignment, metadata, tensors, data_offset })
}

/// An integer metadata value as a `u32`, of any integer type, widened: `None` when the value
/// is negative or above `u32::MAX` (or is not an integer), so the value is never changed.
pub open spec fn meta_as_u32(m: Meta) -> Option<u32> {
    match m {
        Meta::U8(v) => Some(v as u32),
        Meta::U16(v) => Some(v as u32),
        Meta::U32(v) => Some(v),
        Meta::U64(v) => if v <= u32::MAX { Some(v as u32) } else { None },
        Meta::I8(v) => if v >= 0 { Some(v as u32) } else { None },
        Meta::I16(v) => if v >= 0 { Some(v as u32) } else { None },
        Meta::I32(v) => if v >= 0 { Some(v as u32) } else { None },
        Meta::I64(v) => if 0 <= v <= u32::MAX { Some(v as u32) } else { None },
        _ => None,
    }
}

/// An integer element of an array as a `u32`, of any integer type, converted with `as` (kept
/// to the low 32 bits); `None` for a non-integer.
pub open spec fn meta_cast_u32(m: Meta) -> Option<u32> {
    match m {
        Meta::U8(v) => Some(v as u32),
        Meta::U16(v) => Some(v as u32),
        Meta::U32(v) => Some(v),
        Meta::U64(v) => Some(v as u32),
        Meta::I8(v) => Some(v as u32),
        Meta::I16(v) => Some(v as u32),
        Meta::I32(v) => Some(v as u32),
        Meta::I64(v) => Some(v as u32),
        _ => None,
    }
}

/// An array of integers as `u32`s, each converted with `as`; `None` if it is not an array or
/// holds a non-integer.
pub open spec fn meta_as_u32_array(m: Meta) -> Option<Seq<u32>> {
    match m {
        Meta::Array(_, items) => {
            if forall|i: int| 0 <= i < items.len() ==> meta_cast_u32(#[trigger] items[i]) is Some {
                Some(Seq::new(items.len(), |i: int| meta_cast_u32(items[i]).unwrap()))
            } else {
                None
            }
        },
        _ => None,
    }
}

/// An array of 32-bit floats as their bit patterns; `None` if it is not an array or holds
/// anything but 32-bit floats.
pub open spec fn meta_as_f32_bits_array(m: Meta) -> Option<Seq<u32>> {
    match m {
        Meta::Array(_, items) => {
            if forall|i: int| 0 <= i < items.len() ==> #[trigger] items[i] is F32 {
                Some(Seq::new(items.len(), |i: int| items[i]->F32_0))
            } else {
                None
            }
        },
        _ => None,
    }
}

/// An array of strings; `None` if it is not an array or holds a non-string.
pub open spec fn meta_as_str_array(m: Meta) -> Option<Seq<Seq<char>>> {
    match m {
        Meta::Array(_, items) => {
            if forall|i: int| 0 <= i < items.len() ==> #[trigger] items[i] is Str {
                Some(Seq::new(items.len(), |i: int| items[i]->Str_0))
            } else {
                None
            }
        },
        _ => None,
    }
}

/// A parsed GGUF file: the file bytes and what was read from them.
pub struct GgufFile {
    /// The file bytes.
    pub backing: Vec<u8>,
    pub version: u32,
    pub alignment: u64,
    /// The metadata entries in file order; a key given twice means its last value.
    pub metadata: Vec<(String, MetaValue)>,
    pub tensors: Vec<TensorInfo>,
    /// Absolute file offset where the aligned tensor-data section begins.
    pub data_offset: u64,
}

impl GgufFile {
    /// The file bytes.
    pub open spec fn bytes(&self) -> Seq<u8> {
        self.backing@
    }

    /// The metadata as a map from key to value.
    pub open spec fn meta(&self) -> Map<Seq<char>, Meta> {
        meta_map(kvs_view(self.metadata@))
    }

    /// The value stored for `key`, if any.
    pub open spec fn meta_get(&self, key: Seq<char>) -> Option<Meta> {
        if self.meta().dom().contains(key) {
            Some(self.meta()[key])
        } else {
            None
        }
    }

    /// Whether the file holds what `m` describes.
    pub open spec fn describes(&self, m: GgufModel) -> bool {
        &&& self.version == m.version
        &&& self.alignment == m.alignment
        &&& kvs_view(self.metadata@) == m.kvs
        &&& tensors_view(self.tensors@) == m.tensors
        &&& self.data_offset == m.data_offset
    }

    /// Parse a GGUF file already resident in memory.
    pub fn from_bytes(bytes: Vec<u8>) -> (r: Result<Self, GgufError>)
        requires
            bytes@.len() <= isize::MAX,
        ensures
            match (r, parse_gguf(bytes@)) {
                (Ok(g), Ok(m)) => g.describes(m) && g.bytes() == bytes@,
                (Err(e), Err(f)) => e@ == f,
                _ => false,
            },
    {
        let Parsed { version, alignment, metadata, tensors, data_offset } = parse(bytes.as_slice())?;
        Ok(Self { backing: bytes, version, alignment, metadata, tensors, data_offset })
    }

    /// Parse a GGUF file whose bytes stay with the caller (such as a read-only mapping shared
    /// through the page cache): the header, metadata and tensor table are read, and no copy
    /// of the bytes is kept, so the caller slices each tensor's data out of its own bytes.
    pub fn parse_mapped(bytes: &[u8]) -> (r: Result<Self, GgufError>)
        requires
            bytes@.len() <= isize::MAX,
        ensures
            match (r, parse_gguf(bytes@)) {
                (Ok(g), Ok(m)) => g.describes(m) && g.bytes() == Seq::<u8>::empty(),
                (Err(e), Err(f)) => e@ == f,
                _ => false,
            },
    {
        let Parsed { version, alignment, metadata, tensors, data_offset } = parse(bytes)?;
        Ok(Self { backing: Vec::new(), version, alignment, metadata, tensors, data_offset })
    }

    /// The raw (still-quantized) bytes of a tensor's data.
    pub fn tensor_data(&self, t: &TensorInfo) -> (r: &[u8])
        requires
            t.data_start + t.data_len <= self.bytes().len(),
        ensures
            r@ == self.bytes().subrange(t.data_start as int, t.data_start + t.data_len),
    {
        let bytes = self.backing.as_slice();
        let n = bytes.len();
        assert(bytes@ == self.bytes());
        let start = t.data_start as usize;
        let end = (t.data_start + t.data_len) as usize;
        &bytes[start..end]
    }

    /// The value stored for `key`.
    pub fn get(&self, key: &str) -> (r: Option<&MetaValue>)
        ensures
            match r {
                Some(v) => self.meta_get(key@) == Some(meta_view(*v)),
                None => self.meta_get(key@) is None,
            },
    {
        lookup(&self.metadata, key)
    }

    /// Read an integer-valued metadata entry, widening any unsigned or signed integer type to
    /// `u32`: `None` when the entry is absent, not an integer, or outside `u32`.
    pub fn get_u32(&self, key: &str) -> (r: Option<u32>)
        ensures
            r == (match self.meta_get(key@) {
                Some(m) => meta_as_u32(m),
                None => None,
            }),
    {
        match self.get(key) {
            Some(v) => as_u32(v),
            None => None,
        }
    }

    /// Read an array-valued metadata entry as `u32`s (e.g. the per-layer kv-head counts), each
    /// integer element converted with `as`.
    pub fn get_u32_array(&self, key: &str) -> (r: Option<Vec<u32>>)
        ensures
            match r {
                Some(v) => self.meta_get(key@) matches Some(m) && meta_as_u32_array(m) == Some(v@),
                None => !(self.meta_get(key@) matches Some(m) && meta_as_u32_array(m) is Some),
            },
    {
        let (elem_type, items) = match self.get(key) {
            Some(MetaValue::Array { elem_type, items }) => (elem_type, items),
            _ => return None,
        };
        proof {
            lemma_array_view(*elem_type, *items);
        }
        let ghost ms = metas_view(items@);
        let mut out: Vec<u32> = Vec::new();
        let mut i: usize = 0;
        while i < items.len()
            invariant
                i <= items@.len(),
                ms == metas_view(items@),
                self.meta_get(key@) == Some(Meta::Array(*elem_type, ms)),
                out@.len() == i,
                forall|j: int| 0 <= j < i ==> meta_cast_u32(#[trigger] ms[j]) == Some(out@[j]),
            decreases items@.len() - i,
        {
            match cast_u32(&items[i]) {
                Some(v) => out.push(v),
                None => {
                    assert(meta_cast_u32(ms[i as int]) is None);
                    return None;
                },
            }
            i += 1;
        }
        assert(out@ =~= Seq::new(ms.len(), |j: int| meta_cast_u32(ms[j]).unwrap()));
        Some(out)
    }

    /// Read an array-valued metadata entry of strings (e.g. the tokenizer vocab/merges).
    pub fn get_str_array(&self, key: &str) -> (r: Option<Vec<String>>)
        ensures
            match r {
                Some(v) => self.meta_get(key@) matches Some(m) && meta_as_str_array(m) == Some(
                    v@.map_values(|s: String| s@),
                ),
                None => !(self.meta_get(key@) matches Some(m) && meta_as_str_array(m) is Some),
            },
    {
        let (elem_type, items) = match self.get(key) {
            Some(MetaValue::Array { elem_type, items }) => (elem_type, items),
            _ => return None,
        };
        proof {
            lemma_array_view(*elem_type, *items);
        }
        let ghost ms = metas_view(items@);
        let mut out: Vec<String> = Vec::new();
        let mut i: usize = 0;
        while i < items.len()
            invariant
                i <= items@.len(),
                ms == metas_view(items@),
                self.meta_get(key@) == Some(Meta::Array(*elem_type, ms)),
                out@.len() == i,
                forall|j: int| 0 <= j < i ==> #[trigger] ms[j] == Meta::Str(out@[j]@),
            decreases items@.len() - i,
        {
            match &items[i] {
                MetaValue::String(s) => out.push(s.clone()),
                _ => {
                    assert(!(ms[i as int] is Str));
                    return None;
                },
            }
            i += 1;
        }
        assert(out@.map_values(|s: String| s@) =~= Seq::new(ms.len(), |j: int| ms[j]->Str_0));
        Some(out)
    }

    /// Read an array-valued metadata entry of 32-bit floats, as their IEEE-754 bit patterns
    /// (e.g. the SentencePiece piece scores).
    pub fn get_f32_bits_array(&self, key: &str) -> (r: Option<Vec<u32>>)
        ensures
            match r {
                Some(v) => self.meta_get(key@) matches Some(m) && meta_as_f32_bits_array(m) == Some(v@),
                None => !(self.meta_get(key@) matches Some(m) && meta_as_f32_bits_array(m) is Some),
            },
    {
        let (elem_type, items) = match self.get(key) {
            Some(MetaValue::Array { elem_type, items }) => (elem_type, items),
            _ => return None,
        };
        proof {
            lemma_array_view(*elem_type, *items);
        }
        let ghost ms = metas_view(items@);
        let mut out: Vec<u32> = Vec::new();
        let mut i: usize = 0;
        while i < items.len()
            invariant
                i <= items@.len(),
                ms == metas_view(items@),
                self.meta_get(key@) == Some(Meta::Array(*elem_type, ms)),
                out@.len() == i,
                forall|j: int| 0 <= j < i ==> #[trigger] ms[j] == Meta::F32(out@[j]),
            decreases items@.len() - i,
        {
            match &items[i] {
                MetaValue::F32(bits) => out.push(*bits),
                _ => {
                    assert(!(ms[i as int] is F32));
                    return None;
                },
            }
            i += 1;
        }
        assert(out@ =~= Seq::new(ms.len(), |j: int| ms[j]->F32_0));
        Some(out)
    }

    /// Read a string-valued metadata entry.
    pub fn get_str(&self, key: &str) -> (r: Option<&str>)
        ensures
            match r {
                Some(s) => self.meta_get(key@) == Some(Meta::Str(s@)),
                None => !(self.meta_get(key@) matches Some(Meta::Str(_))),
            },
    {
        match self.get(key) {
            Some(MetaValue::String(s)) => Some(s.as_str()),
            _ => None,
        }
    }

    /// Read a boolean metadata entry.
    pub fn get_bool(&self, key: &str) -> (r: Option<bool>)
        ensures
            match r {
                Some(b) => self.meta_get(key@) == Some(Meta::Bool(b)),
                None => !(self.meta_get(key@) matches Some(Meta::Bool(_))),
            },
    {
        match self.get(key) {
            Some(MetaValue::Bool(b)) => Some(*b),
            _ => None,
        }
    }

    /// The model architecture string, e.g. `"lfm2_moe"`.
    pub fn architecture(&self) -> (r: Option<&str>)
        ensures
            match r {
                Some(s) => self.meta_get("general.architecture"@) == Some(Meta::Str(s@)),
                None => !(self.meta_get("general.architecture"@) matches Some(Meta::Str(_))),
            },
    {
        self.get_str("general.architecture")
    }
}

/// An integer array element as a `u32`, converted with `as`.
fn cast_u32(v: &MetaValue) -> (r: Option<u32>)
    ensures
        r == meta_cast_u32(meta_view(*v)),
{
    match v {
        MetaValue::U8(x) => Some(*x as u32),
        MetaValue::U16(x) => Some(*x as u32),
        MetaValue::U32(x) => Some(*x),
        MetaValue::U64(x) => Some(#[verifier::truncate] (*x as u32)),
        MetaValue::I8(x) => Some(#[verifier::truncate] (*x as u32)),
        MetaValue::I16(x) => Some(#[verifier::truncate] (*x as u32)),
        MetaValue::I32(x) => Some(#[verifier::truncate] (*x as u32)),
        MetaValue::I64(x) => Some(#[verifier::truncate] (*x as u32)),
        _ => None,
    }
}

/// An integer value as a `u32`, widened; `None` when `u32` cannot hold it.
fn as_u32(v: &MetaValue) -> (r: Option<u32>)
    ensures
        r == meta_as_u32(meta_view(*v)),
{
    match v {
        MetaValue::U8(x) => Some(*x as u32),
        MetaValue::U16(x) => Some(*x as u32),
        MetaValue::U32(x) => Some(*x),
        MetaValue::U64(x) => if *x <= u32::MAX as u64 { Some(*x as u32) } else { None },
        MetaValue::I8(x) => if *x >= 0 { Some(*x as u32) } else { None },
        MetaValue::I16(x) => if *x >= 0 { Some(*x as u32) } else { None },
        MetaValue::I32(x) => if *x >= 0 { Some(*x as u32) } else { None },
        MetaValue::I64(x) => if 0 <= *x && *x <= u32::MAX as i64 { Some(*x as u32) } else { None },
        _ => None,
    }
}

/// Every checked tensor's data starts at the data section plus its offset and lies inside
/// the file.
proof fn lemma_tensors_of_in_file(ts: Seq<RawTensor>, d: int, fl: int)
    requires
        tensors_of(ts, d, fl) is Ok,
    ensures
        ({
            let out = tensors_of(ts, d, fl)->Ok_0;
            &&& out.len() == ts.len()
            &&& forall|i: int|
                0 <= i < out.len() ==> {
                    let t = #[trigger] out[i];
                    &&& t.0 == ts[i].0
                    &&& t.1 == ts[i].1
                    &&& t.4 == d + t.3
                    &&& t.4 + t.5 <= fl
                    &&& byte_size_of(t.2, dims_product(t.1)) == Some(t.5)
                }
        }),
    decreases ts.len(),
{
    if ts.len() > 0 {
        lemma_tensors_of_in_file(ts.drop_first(), d, fl);
        let out = tensors_of(ts, d, fl)->Ok_0;
        let rest = tensors_of(ts.drop_first(), d, fl)->Ok_0;
        assert forall|i: int| 1 <= i < out.len() implies out[i] == rest[i - 1] by {}
    }
}

/// A successfully parsed file has version 2 or 3 and the alignment of its
/// `general.alignment` entry (32 without one); it places its data section on an alignment
/// boundary no earlier than the end of the tensor table, and every tensor's data lies inside
/// the file, at the data section plus the tensor's offset, as long as its type's byte size for
/// its element count.
pub proof fn lemma_parsed_layout(b: Seq<u8>)
    requires
        parse_gguf(b) is Ok,
    ensures
        ({
            let m = parse_gguf(b)->Ok_0;
            &&& m.version == 2 || m.version == 3
            &&& m.alignment == alignment_of(meta_map(m.kvs))
            &&& !meta_map(m.kvs).dom().contains("general.alignment"@) ==> m.alignment == 32
            &&& m.alignment != 0 ==> m.data_offset % (m.alignment as int) == 0
            &&& 0 <= m.data_offset
            &&& forall|i: int|
                0 <= i < m.tensors.len() ==> {
                    let t = #[trigger] m.tensors[i];
                    &&& t.4 == m.data_offset + t.3
                    &&& t.4 + t.5 <= b.len()
                    &&& byte_size_of(t.2, dims_product(t.1)) == Some(t.5)
                }
        }),
{
    let m = parse_gguf(b)->Ok_0;
    let (version, p1) = u32_at(b, 4)->Ok_0;
    let (tc, p2) = u64_at(b, p1)->Ok_0;
    let (kc, p3) = u64_at(b, p2)->Ok_0;
    let (kvs, p4) = kvs_at(b, p3, kc as nat)->Ok_0;
    let (raws, p5) = raw_tensors_at(b, p4, tc as nat)->Ok_0;
    let a = m.alignment as int;
    assert(p1 == 8 && p2 == 16 && p3 == 24);
    lemma_kvs_at_bounds(b, p3, kc as nat);
    lemma_raw_tensors_at_bounds(b, p4, tc as nat);
    assert(m.data_offset == align_up_spec(p5, a));
    if a != 0 && p5 % a != 0 {
        vstd::arithmetic::div_mod::lemma_mod_add_multiples_vanish(p5 - p5 % a, a);
        vstd::arithmetic::div_mod::lemma_fundamental_div_mod(p5, a);
        assert((p5 - p5 % a) % a == 0) by {
            vstd::arithmetic::div_mod::lemma_mod_multiples_basic(p5 / a, a);
            assert(p5 - p5 % a == (p5 / a) * a) by (nonlinear_arith)
                requires
                    p5 == a * (p5 / a) + p5 % a,
            ;
        }
    }
    lemma_tensors_of_in_file(raws, m.data_offset, b.len() as int);
}

/// Reading key/value pairs never moves before the start or past the end.
proof fn lemma_kvs_at_bounds(b: Seq<u8>, p: int, n: nat)
    requires
        0 <= p <= b.len(),
    ensures
        kvs_at(b, p, n) matches Ok((_, q)) ==> p <= q <= b.len(),
    decreases n,
{
    if n > 0 {
        match string_at(b, p) {
            Ok((key, q1)) => match u32_at(b, q1) {
                Ok((raw, q2)) => match value_type_of(raw) {
                    Some(vt) => {
                        lemma_value_at_advances(b, q2, vt);
                        match value_at(b, q2, vt) {
                            Ok((v, q3)) => {
                                lemma_kvs_at_bounds(b, q3, (n - 1) as nat);
                            },
                            _ => {},
                        }
                    },
                    _ => {},
                },
                _ => {},
            },
            _ => {},
        }
    }
}

/// Reading dimensions never moves before the start or past the end.
proof fn lemma_dims_at_bounds(b: Seq<u8>, p: int, k: nat)
    requires
        0 <= p <= b.len(),
    ensures
        dims_at(b, p, k) matches Ok((_, q)) ==> p <= q <= b.len(),
    decreases k,
{
    if k > 0 {
        match u64_at(b, p) {
            Ok((d, q)) => {
                lemma_dims_at_bounds(b, q, (k - 1) as nat);
            },
            _ => {},
        }
    }
}

/// Reading tensor-table entries never moves before the start or past the end.
proof fn lemma_raw_tensors_at_bounds(b: Seq<u8>, p: int, n: nat)
    requires
        0 <= p <= b.len(),
    ensures
        raw_tensors_at(b, p, n) matches Ok((_, q)) ==> p <= q <= b.len(),
    decreases n,
{
    if n > 0 {
        match raw_tensor_at(b, p) {
            Ok((t, q)) => {
                let (name, q1) = string_at(b, p)->Ok_0;
                let (nd, q2) = u32_at(b, q1)->Ok_0;
                lemma_dims_at_bounds(b, q2, nd as nat);
                lemma_raw_tensors_at_bounds(b, q, (n - 1) as nat);
            },
            _ => {},
        }
    }
}

/// What [`GgufFile::from_bytes`] gives, stated over the file's own fields: version 2 or 3;
/// the alignment of its `general.alignment` entry (32 without one); the data section on an
/// alignment boundary; and every tensor's data at the data section plus its offset, as long
/// as its type's byte size for its element count, inside the bytes parsed.
pub proof fn lemma_file_layout(g: GgufFile, b: Seq<u8>)
    requires
        parse_gguf(b) is Ok,
        g.describes(parse_gguf(b)->Ok_0),
    ensures
        g.version == 2 || g.version == 3,
        g.alignment == alignment_of(g.meta()),
        !g.meta().dom().contains("general.alignment"@) ==> g.alignment == 32,
        g.alignment != 0 ==> g.data_offset % g.alignment == 0,
        forall|i: int|
            0 <= i < g.tensors@.len() ==> {
                let t = #[trigger] g.tensors@[i];
                &&& t.data_start == g.data_offset + t.offset
                &&& t.data_start + t.data_len <= b.len()
                &&& byte_size_of(t.ggml_type, dims_product(t.dims@)) == Some(t.data_len as int)
            },
{
    lemma_parsed_layout(b);
    let m = parse_gguf(b)->Ok_0;
    assert forall|i: int| 0 <= i < g.tensors@.len() implies {
        let t = #[trigger] g.tensors@[i];
        &&& t.data_start == g.data_offset + t.offset
        &&& t.data_start + t.data_len <= b.len()
        &&& byte_size_of(t.ggml_type, dims_product(t.dims@)) == Some(t.data_len as int)
    } by {
        assert(tensors_view(g.tensors@)[i] == m.tensors[i]);
    }
}

} // verus!
