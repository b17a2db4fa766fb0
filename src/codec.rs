use vstd::bytes::*;
use vstd::prelude::*;
use vstd::slice::slice_subrange;
use vstd::utf8::*;

use crate::arena::{heap_payload, BlobHeap};
use crate::errors::StorageError;
use crate::types::{fits, width, ColumnType, Datum, Value};

verus! {

/// Two's complement bits of a 32-bit integer.
pub open spec fn i32_bits(i: i32) -> u32 {
    if i >= 0 {
        i as u32
    } else {
        (i + 0x1_0000_0000) as u32
    }
}

/// The 32-bit integer whose two's complement bits are `u`.
pub open spec fn i32_of_bits(u: u32) -> i32 {
    if u < 0x8000_0000 {
        u as i32
    } else {
        (u - 0x1_0000_0000) as i32
    }
}

/// Two's complement bits of a 64-bit integer.
pub open spec fn i64_bits(i: i64) -> u64 {
    if i >= 0 {
        i as u64
    } else {
        (i + 0x1_0000_0000_0000_0000) as u64
    }
}

/// The 64-bit integer whose two's complement bits are `u`.
pub open spec fn i64_of_bits(u: u64) -> i64 {
    if u < 0x8000_0000_0000_0000 {
        u as i64
    } else {
        (u - 0x1_0000_0000_0000_0000) as i64
    }
}

/// Little-endian bytes of a scalar, as a row stores it.
pub open spec fn scalar_bytes(d: Datum) -> Seq<u8> {
    match d {
        Datum::Ulid(u) => spec_u128_to_le_bytes(u),
        Datum::Int32(i) => spec_u32_to_le_bytes(i32_bits(i)),
        Datum::Int64(i) => spec_u64_to_le_bytes(i64_bits(i)),
        _ => Seq::empty(),
    }
}

/// The scalar of type `t` that the bytes `raw` hold.
pub open spec fn decode_scalar(t: ColumnType, raw: Seq<u8>) -> Datum {
    match t {
        ColumnType::Ulid => Datum::Ulid(spec_u128_from_le_bytes(raw)),
        ColumnType::Int32 => Datum::Int32(i32_of_bits(spec_u32_from_le_bytes(raw))),
        ColumnType::Int64 => Datum::Int64(i64_of_bits(spec_u64_from_le_bytes(raw))),
        ColumnType::String => Datum::Text(Seq::empty()),
    }
}

/// The value of type `t` stored at `offset` of the row bytes `record`, with
/// strings read from `heap`.
pub open spec fn decode_cell(heap: Seq<u8>, record: Seq<u8>, offset: int, t: ColumnType) -> Result<
    Datum,
    StorageError,
> {
    if offset < 0 || offset + width(t) > record.len() {
        Err(StorageError::OutOfBounds)
    } else {
        let raw = record.subrange(offset, offset + width(t));
        match t {
            ColumnType::String => match heap_payload(heap, spec_u32_from_le_bytes(raw) as int) {
                Some(p) => if valid_utf8(p) {
                    Ok(Datum::Text(decode_utf8(p)))
                } else {
                    Err(StorageError::CorruptHeap)
                },
                None => Err(StorageError::CorruptHeap),
            },
            _ => Ok(decode_scalar(t, raw)),
        }
    }
}

/// Whether `record` and `heap` hold `d` at `offset`: a scalar as its bytes,
/// a text as a heap offset whose payload is the text's UTF-8 bytes.
pub open spec fn cell_holds(heap: Seq<u8>, record: Seq<u8>, offset: int, d: Datum) -> bool {
    match d {
        Datum::Text(s) => {
            &&& 0 <= offset && offset + 4 <= record.len()
            &&& heap_payload(
                heap,
                spec_u32_from_le_bytes(record.subrange(offset, offset + 4)) as int,
            ) == Some(encode_utf8(s))
        },
        _ => {
            &&& 0 <= offset && offset + scalar_bytes(d).len() <= record.len()
            &&& record.subrange(offset, offset + scalar_bytes(d).len()) == scalar_bytes(d)
        },
    }
}

/// Meaning of a decoded value or of the error met.
pub open spec fn result_model(r: Result<Value, StorageError>) -> Result<Datum, StorageError> {
    match r {
        Ok(v) => Ok(v.model()),
        Err(e) => Err(e),
    }
}

/// Encoding a scalar and decoding it with the type of its column gives the
/// scalar back, in as many bytes as the column is wide.
pub proof fn lemma_scalar_round_trip(d: Datum, t: ColumnType)
    requires
        fits(d, t),
        t != ColumnType::String,
    ensures
        scalar_bytes(d).len() == width(t),
        decode_scalar(t, scalar_bytes(d)) == d,
{
    lemma_auto_spec_u32_to_from_le_bytes();
    lemma_auto_spec_u64_to_from_le_bytes();
    lemma_auto_spec_u128_to_from_le_bytes();
    match d {
        Datum::Ulid(u) => {
            assert(spec_u128_to_le_bytes(u).len() == 16);
        },
        Datum::Int32(i) => {
            assert(spec_u32_to_le_bytes(i32_bits(i)).len() == 4);
            assert(i32_of_bits(i32_bits(i)) == i);
        },
        Datum::Int64(i) => {
            assert(spec_u64_to_le_bytes(i64_bits(i)).len() == 8);
            assert(i64_of_bits(i64_bits(i)) == i);
        },
        _ => {},
    }
}

/// A value stored in a cell decodes to itself, a scalar or a text alike.
pub proof fn lemma_cell_round_trip(heap: Seq<u8>, record: Seq<u8>, offset: int, d: Datum, t: ColumnType)
    requires
        fits(d, t),
        cell_holds(heap, record, offset, d),
    ensures
        decode_cell(heap, record, offset, t) == Ok::<Datum, StorageError>(d),
{
    match d {
        Datum::Text(s) => {
            encode_utf8_valid_utf8(s);
            encode_utf8_decode_utf8(s);
        },
        _ => {
            lemma_scalar_round_trip(d, t);
        },
    }
}

/// A cell keeps its value when bytes are appended to the heap.
pub proof fn lemma_cell_holds_extend(
    heap: Seq<u8>,
    heap2: Seq<u8>,
    record: Seq<u8>,
    offset: int,
    d: Datum,
)
    requires
        cell_holds(heap, record, offset, d),
        heap.len() <= heap2.len(),
        heap2.subrange(0, heap.len() as int) == heap,
    ensures
        cell_holds(heap2, record, offset, d),
{
    if d is Text {
        crate::arena::lemma_heap_payload_extend(
            heap,
            heap2,
            spec_u32_from_le_bytes(record.subrange(offset, offset + 4)) as int,
        );
    }
}

fn i32_to_bits(i: i32) -> (u: u32)
    ensures
        u == i32_bits(i),
{
    if i >= 0 {
        i as u32
    } else {
        (i as i64 + 0x1_0000_0000i64) as u32
    }
}

fn i32_from_bits(u: u32) -> (i: i32)
    ensures
        i == i32_of_bits(u),
{
    if u < 0x8000_0000 {
        u as i32
    } else {
        (u as i64 - 0x1_0000_0000i64) as i32
    }
}

fn i64_to_bits(i: i64) -> (u: u64)
    ensures
        u == i64_bits(i),
{
    if i >= 0 {
        i as u64
    } else {
        (i as i128 + 0x1_0000_0000_0000_0000i128) as u64
    }
}

fn i64_from_bits(u: u64) -> (i: i64)
    ensures
        i == i64_of_bits(u),
{
    if u < 0x8000_0000_0000_0000 {
        u as i64
    } else {
        (u as i128 - 0x1_0000_0000_0000_0000i128) as i64
    }
}

/// The row bytes of a scalar value.
pub fn encode_scalar(v: &Value) -> (r: Vec<u8>)
    requires
        !(v.model() is Text),
        !(v.model() is Rows),
    ensures
        r@ == scalar_bytes(v.model()),
{
    match v {
        Value::Ulid(u) => u128_to_le_bytes(*u),
        Value::Int32(i) => u32_to_le_bytes(i32_to_bits(*i)),
        Value::Int64(i) => u64_to_le_bytes(i64_to_bits(*i)),
        _ => Vec::new(),
    }
}

/// Relies on `std::str::from_utf8`: it accepts every valid UTF-8 slice, and
/// the string it returns consists of exactly the given bytes.
#[verifier::external_body]
fn utf8_str(b: &[u8]) -> (r: Option<&str>)
    ensures
        valid_utf8(b@) ==> r is Some,
        r matches Some(s) ==> encode_utf8(s@) == b@,
{
    match std::str::from_utf8(b) {
        Ok(s) => Some(s),
        Err(_) => None,
    }
}

/// The string whose UTF-8 bytes are `b`, if there is one.
pub fn decode_text(b: &[u8]) -> (r: Option<String>)
    ensures
        valid_utf8(b@) <==> r is Some,
        r matches Some(s) ==> s@ == decode_utf8(b@),
{
    match utf8_str(b) {
        Some(s) => {
            proof {
                encode_utf8_valid_utf8(s@);
                encode_utf8_decode_utf8(s@);
            }
            Some(s.to_owned())
        },
        None => None,
    }
}

/// Whether two strings have the same characters.
pub fn same_text(a: &str, b: &str) -> (r: bool)
    ensures
        r == (a@ == b@),
{
    let x = a.as_bytes();
    let y = b.as_bytes();
    proof {
        encode_utf8_decode_utf8(a@);
        encode_utf8_decode_utf8(b@);
    }
    if x.len() != y.len() {
        return false;
    }
    let mut i: usize = 0;
    while i < x.len()
        invariant
            x@ == encode_utf8(a@),
            y@ == encode_utf8(b@),
            x@.len() == y@.len(),
            i <= x@.len(),
            forall|k: int| 0 <= k < i ==> x@[k] == y@[k],
        decreases x@.len() - i,
    {
        if x[i] != y[i] {
            assert(x@[i as int] != y@[i as int]);
            return false;
        }
        i += 1;
    }
    assert(x@ =~= y@);
    true
}

/// Reads the value of type `t` at `offset` of the row bytes `record`.
pub fn read_cell(heap: &BlobHeap, record: &[u8], offset: usize, t: ColumnType) -> (r: Result<
    Value,
    StorageError,
>)
    requires
        heap.wf(),
    ensures
        result_model(r) == decode_cell(heap.contents(), record@, offset as int, t),
{
    let w = t.width();
    if w > record.len() || offset > record.len() - w {
        return Err(StorageError::OutOfBounds);
    }
    let raw = slice_subrange(record, offset, offset + w);
    assert(raw@ =~= record@.subrange(offset as int, offset + w));
    match t {
        ColumnType::Ulid => Ok(Value::Ulid(u128_from_le_bytes(raw))),
        ColumnType::Int32 => Ok(Value::Int32(i32_from_bits(u32_from_le_bytes(raw)))),
        ColumnType::Int64 => Ok(Value::Int64(i64_from_bits(u64_from_le_bytes(raw)))),
        ColumnType::String => {
            let at = u32_from_le_bytes(raw);
            match heap.read(at as usize) {
                Err(e) => Err(e),
                Ok(payload) => match decode_text(payload) {
                    Some(s) => Ok(Value::String(s)),
                    None => Err(StorageError::CorruptHeap),
                },
            }
        },
    }
}

} // verus!
