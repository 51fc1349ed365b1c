use crate::codec::{copy_bytes, read_var_int, varint_complete, varint_len, varint_value};
use crate::errors::DbError;
use vstd::arithmetic::power2::{lemma2_to64, pow2};
use vstd::prelude::*;
use vstd::utf8::{
    decode_first_codepoint, length_of_first_scalar, pop_first_scalar, valid_first_scalar,
    valid_leading_and_continuation_bytes_first_codepoint, valid_utf8,
};

verus! {

// ---------------------------------------------------------------------------
// Column values
// ---------------------------------------------------------------------------

/// The absence of a value.
#[derive(Debug)]
pub struct NULL {}

/// An opaque byte string column.
#[derive(Debug)]
pub struct Blob {
    /// The declared length of the blob in bytes.
    pub size: u64,
    /// The blob bytes.
    pub data: Vec<u8>,
}

/// A UTF-8 text column, kept as its validated bytes.
#[derive(Debug)]
pub struct Text {
    /// The declared length of the text in bytes.
    pub size: u64,
    /// The UTF-8 bytes.
    pub data: Vec<u8>,
}

/// One typed column value of a record.
///
/// The integer variants are signed and sign-extended from their stored width.
/// A stored eight-byte IEEE-754 value is kept as its raw big-endian bit
/// pattern in the `F64` variant: this library never does floating-point
/// arithmetic, and comparisons that would need it are refused as a
/// `TypeMismatch`, so a caller that wants the number reads the bits out.
#[derive(Debug)]
pub enum Column {
    NULL(NULL),
    I8(i8),
    I16(i16),
    I24(i32),
    I32(i32),
    I48(i64),
    I64(i64),
    F64(u64),
    False(bool),
    True(bool),
    Blob(Blob),
    Text(Text),
}

/// Mathematical view of a column value.
pub enum SpecColumn {
    Null,
    I8(i8),
    I16(i16),
    I24(i32),
    I32(i32),
    I48(i64),
    I64(i64),
    F64(u64),
    False,
    True,
    Blob(u64, Seq<u8>),
    Text(u64, Seq<u8>),
}

impl View for Column {
    type V = SpecColumn;

    open spec fn view(&self) -> SpecColumn {
        match self {
            Column::NULL(_) => SpecColumn::Null,
            Column::I8(v) => SpecColumn::I8(*v),
            Column::I16(v) => SpecColumn::I16(*v),
            Column::I24(v) => SpecColumn::I24(*v),
            Column::I32(v) => SpecColumn::I32(*v),
            Column::I48(v) => SpecColumn::I48(*v),
            Column::I64(v) => SpecColumn::I64(*v),
            Column::F64(v) => SpecColumn::F64(*v),
            Column::False(_) => SpecColumn::False,
            Column::True(_) => SpecColumn::True,
            Column::Blob(b) => SpecColumn::Blob(b.size, b.data@),
            Column::Text(t) => SpecColumn::Text(t.size, t.data@),
        }
    }
}

// ---------------------------------------------------------------------------
// Fixed-width big-endian reads and sign extension
// ---------------------------------------------------------------------------

/// The big-endian unsigned integer stored in `width` bytes at offset `off`.
pub open spec fn be_uint_at(b: Seq<u8>, off: int, width: int) -> int
    decreases width,
{
    if width <= 0 {
        0
    } else {
        be_uint_at(b, off, width - 1) * 0x100 + b[off + width - 1]
    }
}

/// A big-endian unsigned integer of `width` bytes is below `pow2(8 * width)`.
pub proof fn lemma_be_uint_bound(b: Seq<u8>, off: int, width: int)
    requires
        0 <= width <= 8,
    ensures
        0 <= be_uint_at(b, off, width) < pow2((8 * width) as nat),
    decreases width,
{
    lemma2_to64();
    vstd::arithmetic::power2::lemma2_to64_rest();
    if width > 0 {
        lemma_be_uint_bound(b, off, width - 1);
        assert(be_uint_at(b, off, width - 1) * 0x100 + 0x100 <= pow2((8 * (width - 1)) as nat)
            * 0x100) by (nonlinear_arith)
            requires
                be_uint_at(b, off, width - 1) + 1 <= pow2((8 * (width - 1)) as nat),
        ;
        assert(pow2((8 * (width - 1)) as nat) * 0x100 == pow2((8 * width) as nat)) by {
            vstd::arithmetic::power2::lemma_pow2_adds((8 * (width - 1)) as nat, 8);
        }
    }
}

/// Reads the big-endian unsigned integer of `width` bytes at `start`.
fn read_be_uint(buf: &[u8], start: usize, width: usize) -> (r: u64)
    requires
        width <= 8,
        start + width <= buf@.len(),
    ensures
        r == be_uint_at(buf@, start as int, width as int),
{
    proof {
        lemma2_to64();
    }
    let buf_len = buf.len();
    let mut acc: u64 = 0;
    let mut i: usize = 0;
    while i < width
        invariant
            0 <= i <= width <= 8,
            start + width <= buf_len,
            buf_len == buf@.len(),
            acc == be_uint_at(buf@, start as int, i as int),
            acc < pow2((8 * i) as nat),
        decreases width - i,
    {
        proof {
            lemma_be_uint_bound(buf@, start as int, i as int);
            lemma2_to64();
            vstd::arithmetic::power2::lemma2_to64_rest();
            assert(acc * 0x100 + 0x100 <= pow2((8 * i) as nat) * 0x100) by (nonlinear_arith)
                requires
                    acc + 1 <= pow2((8 * i) as nat),
            ;
            assert(pow2((8 * i) as nat) * 0x100 == pow2((8 * (i + 1)) as nat)) by {
                vstd::arithmetic::power2::lemma_pow2_adds((8 * i) as nat, 8);
            }
            assert(pow2((8 * (i + 1)) as nat) <= pow2(64)) by {
                if i < 7 {
                    vstd::arithmetic::power2::lemma_pow2_strictly_increases(
                        (8 * (i + 1)) as nat,
                        64,
                    );
                }
            }
        }
        acc = acc * 0x100 + (buf[start + i] as u64);
        i = i + 1;
    }
    acc
}

/// Arithmetic sign extension of a `width`-byte big-endian unsigned value:
/// values with the top bit of their stored width set are negative.
pub open spec fn sign_extend(raw: int, width: int) -> int {
    let half: int = if width == 1 {
        0x80
    } else if width == 2 {
        0x8000
    } else if width == 3 {
        0x800000
    } else if width == 4 {
        0x80000000
    } else if width == 6 {
        0x800000000000
    } else {
        0x8000000000000000
    };
    if raw >= half {
        raw - 2 * half
    } else {
        raw
    }
}

// ---------------------------------------------------------------------------
// Column decoding
// ---------------------------------------------------------------------------

/// The column stored with serial type `serial` at offset `off` of `buf`,
/// together with the offset just past it.
///
/// A fixed-width numeric column whose stored width extends past the end of
/// the buffer decodes, by design, to a zero value of its kind without moving
/// the offset. Serial types 10 and 11 are reserved and refused. Blob and text
/// columns must lie inside the buffer, and text bytes must be valid UTF-8.
pub open spec fn spec_read_column(serial: int, b: Seq<u8>, off: int) -> Result<
    (SpecColumn, int),
    DbError,
> {
    if serial == 0 {
        Ok((SpecColumn::Null, off))
    } else if serial == 1 {
        if off + 1 > b.len() {
            Ok((SpecColumn::I8(0), off))
        } else {
            Ok((SpecColumn::I8(sign_extend(be_uint_at(b, off, 1), 1) as i8), off + 1))
        }
    } else if serial == 2 {
        if off + 2 > b.len() {
            Ok((SpecColumn::I16(0), off))
        } else {
            Ok((SpecColumn::I16(sign_extend(be_uint_at(b, off, 2), 2) as i16), off + 2))
        }
    } else if serial == 3 {
        if off + 3 > b.len() {
            Ok((SpecColumn::I24(0), off))
        } else {
            Ok((SpecColumn::I24(sign_extend(be_uint_at(b, off, 3), 3) as i32), off + 3))
        }
    } else if serial == 4 {
        if off + 4 > b.len() {
            Ok((SpecColumn::I32(0), off))
        } else {
            Ok((SpecColumn::I32(sign_extend(be_uint_at(b, off, 4), 4) as i32), off + 4))
        }
    } else if serial == 5 {
        if off + 6 > b.len() {
            Ok((SpecColumn::I48(0), off))
        } else {
            Ok((SpecColumn::I48(sign_extend(be_uint_at(b, off, 6), 6) as i64), off + 6))
        }
    } else if serial == 6 {
        if off + 8 > b.len() {
            Ok((SpecColumn::I64(0), off))
        } else {
            Ok((SpecColumn::I64(sign_extend(be_uint_at(b, off, 8), 8) as i64), off + 8))
        }
    } else if serial == 7 {
        if off + 8 > b.len() {
            Ok((SpecColumn::F64(0), off))
        } else {
            Ok((SpecColumn::F64(be_uint_at(b, off, 8) as u64), off + 8))
        }
    } else if serial == 8 {
        Ok((SpecColumn::False, off))
    } else if serial == 9 {
        Ok((SpecColumn::True, off))
    } else if serial == 10 || serial == 11 {
        Err(DbError::UnsupportedSerialType)
    } else if serial % 2 == 0 {
        let size = (serial - 12) / 2;
        if off + size > b.len() {
            Err(DbError::BoundsViolation)
        } else {
            Ok((SpecColumn::Blob(size as u64, b.subrange(off, off + size)), off + size))
        }
    } else {
        let size = (serial - 13) / 2;
        if off + size > b.len() {
            Err(DbError::BoundsViolation)
        } else if !valid_utf8(b.subrange(off, off + size)) {
            Err(DbError::InvalidTextEncoding)
        } else {
            Ok((SpecColumn::Text(size as u64, b.subrange(off, off + size)), off + size))
        }
    }
}

/// Checks whether `bytes` is a valid UTF-8 encoding.
pub fn check_utf8(bytes: &[u8]) -> (r: bool)
    ensures
        r == valid_utf8(bytes@),
{
    let len = bytes.len();
    proof {
        assert(bytes@.skip(0) =~= bytes@);
    }
    let mut p: usize = 0;
    while p < len
        invariant
            0 <= p <= len,
            len == bytes@.len(),
            valid_utf8(bytes@) == valid_utf8(bytes@.skip(p as int)),
        decreases len - p,
    {
        let ghost suffix = bytes@.skip(p as int);
        assert(suffix.len() == len - p);
        assert(forall|k: int| 0 <= k < suffix.len() ==> suffix[k] == bytes@[p + k]);
        let b0 = bytes[p];
        let width: usize;
        if b0 <= 0x7f {
            // one byte: never overlong, never a surrogate
            width = 1;
            assert(valid_first_scalar(suffix));
        } else if 0xc0 <= b0 && b0 <= 0xdf {
            if len - p < 2 {
                assert(!valid_leading_and_continuation_bytes_first_codepoint(suffix));
                return false;
            }
            let b1 = bytes[p + 1];
            if !(0x80 <= b1 && b1 <= 0xbf) {
                assert(!valid_leading_and_continuation_bytes_first_codepoint(suffix));
                return false;
            }
            let cp: u32 = (((b0 & 0x1f) as u32) << 6u32) | ((b1 & 0x3f) as u32);
            assert(cp == decode_first_codepoint(suffix));
            if cp < 0x80 {
                assert(!valid_first_scalar(suffix));
                assert(!valid_utf8(suffix));
                return false;
            }
            if 0xd800 <= cp && cp <= 0xdfff {
                assert(!valid_first_scalar(suffix));
                assert(!valid_utf8(suffix));
                return false;
            }
            width = 2;
            assert(valid_first_scalar(suffix));
        } else if 0xe0 <= b0 && b0 <= 0xef {
            if len - p < 3 {
                assert(!valid_leading_and_continuation_bytes_first_codepoint(suffix));
                return false;
            }
            let b1 = bytes[p + 1];
            let b2 = bytes[p + 2];
            if !(0x80 <= b1 && b1 <= 0xbf) || !(0x80 <= b2 && b2 <= 0xbf) {
                assert(!valid_leading_and_continuation_bytes_first_codepoint(suffix));
                return false;
            }
            let cp: u32 = (((b0 & 0x0f) as u32) << 12u32) | (((b1 & 0x3f) as u32) << 6u32) | ((b2
                & 0x3f) as u32);
            assert(cp == decode_first_codepoint(suffix));
            if cp < 0x800 {
                assert(!valid_first_scalar(suffix));
                assert(!valid_utf8(suffix));
                return false;
            }
            if 0xd800 <= cp && cp <= 0xdfff {
                assert(!valid_first_scalar(suffix));
                assert(!valid_utf8(suffix));
                return false;
            }
            width = 3;
            assert(valid_first_scalar(suffix));
        } else if 0xf0 <= b0 && b0 <= 0xf7 {
            if len - p < 4 {
                assert(!valid_leading_and_continuation_bytes_first_codepoint(suffix));
                return false;
            }
            let b1 = bytes[p + 1];
            let b2 = bytes[p + 2];
            let b3 = bytes[p + 3];
            if !(0x80 <= b1 && b1 <= 0xbf) || !(0x80 <= b2 && b2 <= 0xbf) || !(0x80 <= b3 && b3
                <= 0xbf) {
                assert(!valid_leading_and_continuation_bytes_first_codepoint(suffix));
                return false;
            }
            let cp: u32 = (((b0 & 0x07) as u32) << 18u32) | (((b1 & 0x3f) as u32) << 12u32) | (((b2
                & 0x3f) as u32) << 6u32) | ((b3 & 0x3f) as u32);
            assert(cp == decode_first_codepoint(suffix));
            if !(0x10000 <= cp && cp <= 0x10ffff) {
                assert(!valid_first_scalar(suffix));
                assert(!valid_utf8(suffix));
                return false;
            }
            if 0xd800 <= cp && cp <= 0xdfff {
                assert(!valid_first_scalar(suffix));
                assert(!valid_utf8(suffix));
                return false;
            }
            width = 4;
            assert(valid_first_scalar(suffix));
        } else {
            // a continuation byte or an out-of-range leading byte
            assert(!valid_leading_and_continuation_bytes_first_codepoint(suffix));
            assert(!valid_utf8(suffix));
            return false;
        }
        proof {
            assert(length_of_first_scalar(suffix) == width);
            assert(pop_first_scalar(suffix) =~= bytes@.skip(p + width));
            assert(valid_utf8(suffix) == valid_utf8(bytes@.skip(p + width)));
        }
        p = p + width;
    }
    proof {
        assert(bytes@.skip(len as int) =~= Seq::<u8>::empty());
        assert(valid_utf8(Seq::<u8>::empty()));
    }
    true
}

/// Decodes one column with serial type `serial_type` from `buf`, advancing
/// `offset` past the bytes the column occupies.
pub fn read_record_column(serial_type: u64, buf: &[u8], offset: &mut usize) -> (r: Result<
    Column,
    DbError,
>)
    ensures
        match spec_read_column(serial_type as int, buf@, *old(offset) as int) {
            Ok(p) => r matches Ok(col) && col@ == p.0 && *final(offset) == p.1,
            Err(e) => r matches Err(e2) && e2 == e && *final(offset) == *old(offset),
        },
{
    let blen = buf.len();
    proof {
        lemma2_to64();
        vstd::arithmetic::power2::lemma2_to64_rest();
    }
    if serial_type == 0 {
        Ok(Column::NULL(NULL {}))
    } else if serial_type == 1 {
        if blen < 1 || *offset > blen - 1 {
            Ok(Column::I8(0))
        } else {
            proof {
                lemma_be_uint_bound(buf@, *offset as int, 1);
            }
            let raw = read_be_uint(buf, *offset, 1);
            let v: i8 = if raw >= 0x80 {
                ((raw as i64) - 0x100) as i8
            } else {
                raw as i8
            };
            *offset = *offset + 1;
            Ok(Column::I8(v))
        }
    } else if serial_type == 2 {
        if blen < 2 || *offset > blen - 2 {
            Ok(Column::I16(0))
        } else {
            proof {
                lemma_be_uint_bound(buf@, *offset as int, 2);
            }
            let raw = read_be_uint(buf, *offset, 2);
            let v: i16 = if raw >= 0x8000 {
                ((raw as i64) - 0x10000) as i16
            } else {
                raw as i16
            };
            *offset = *offset + 2;
            Ok(Column::I16(v))
        }
    } else if serial_type == 3 {
        if blen < 3 || *offset > blen - 3 {
            Ok(Column::I24(0))
        } else {
            proof {
                lemma_be_uint_bound(buf@, *offset as int, 3);
            }
            let raw = read_be_uint(buf, *offset, 3);
            let v: i32 = if raw >= 0x800000 {
                ((raw as i64) - 0x1000000) as i32
            } else {
                raw as i32
            };
            *offset = *offset + 3;
            Ok(Column::I24(v))
        }
    } else if serial_type == 4 {
        if blen < 4 || *offset > blen - 4 {
            Ok(Column::I32(0))
        } else {
            proof {
                lemma_be_uint_bound(buf@, *offset as int, 4);
            }
            let raw = read_be_uint(buf, *offset, 4);
            let v: i32 = if raw >= 0x80000000 {
                ((raw as i64) - 0x100000000) as i32
            } else {
                raw as i32
            };
            *offset = *offset + 4;
            Ok(Column::I32(v))
        }
    } else if serial_type == 5 {
        if blen < 6 || *offset > blen - 6 {
            Ok(Column::I48(0))
        } else {
            proof {
                lemma_be_uint_bound(buf@, *offset as int, 6);
            }
            let raw = read_be_uint(buf, *offset, 6);
            let v: i64 = if raw >= 0x800000000000 {
                (raw as i64) - 0x1000000000000
            } else {
                raw as i64
            };
            *offset = *offset + 6;
            Ok(Column::I48(v))
        }
    } else if serial_type == 6 {
        if blen < 8 || *offset > blen - 8 {
            Ok(Column::I64(0))
        } else {
            proof {
                lemma_be_uint_bound(buf@, *offset as int, 8);
            }
            let raw = read_be_uint(buf, *offset, 8);
            let v: i64 = if raw >= 0x8000000000000000 {
                ((raw - 0x8000000000000000) as i64) - 0x4000000000000000 - 0x4000000000000000
            } else {
                raw as i64
            };
            *offset = *offset + 8;
            Ok(Column::I64(v))
        }
    } else if serial_type == 7 {
        if blen < 8 || *offset > blen - 8 {
            Ok(Column::F64(0))
        } else {
            proof {
                lemma_be_uint_bound(buf@, *offset as int, 8);
            }
            let raw = read_be_uint(buf, *offset, 8);
            *offset = *offset + 8;
            Ok(Column::F64(raw))
        }
    } else if serial_type == 8 {
        Ok(Column::False(false))
    } else if serial_type == 9 {
        Ok(Column::True(true))
    } else if serial_type == 10 || serial_type == 11 {
        Err(DbError::UnsupportedSerialType)
    } else if serial_type % 2 == 0 {
        let size64 = (serial_type - 12) / 2;
        if *offset > blen || size64 > (blen - *offset) as u64 {
            return Err(DbError::BoundsViolation);
        }
        let size = size64 as usize;
        let data = copy_bytes(buf, *offset, size);
        *offset = *offset + size;
        Ok(Column::Blob(Blob { size: size64, data }))
    } else {
        let size64 = (serial_type - 13) / 2;
        if *offset > blen || size64 > (blen - *offset) as u64 {
            return Err(DbError::BoundsViolation);
        }
        let size = size64 as usize;
        let data = copy_bytes(buf, *offset, size);
        if !check_utf8(data.as_slice()) {
            return Err(DbError::InvalidTextEncoding);
        }
        *offset = *offset + size;
        Ok(Column::Text(Text { size: size64, data }))
    }
}

// ---------------------------------------------------------------------------
// Records
// ---------------------------------------------------------------------------

/// A decoded record: its header length and its ordered column values. The
/// column count is the length of the body.
#[derive(Debug)]
pub struct Record {
    /// The declared length of the record header, including its own varint.
    pub header_size: u64,
    /// The column values, one per serial type of the record header.
    pub body: Vec<Column>,
}

/// Mathematical view of a record.
pub struct SpecRecord {
    pub header_size: u64,
    pub body: Seq<SpecColumn>,
}

impl View for Record {
    type V = SpecRecord;

    open spec fn view(&self) -> SpecRecord {
        SpecRecord { header_size: self.header_size, body: self.body@.map_values(|c: Column| c@) }
    }
}

/// The serial types stored as varints from offset `off` until the offset
/// reaches `end`, together with the offset just past the last one read, which
/// may overshoot `end`.
pub open spec fn spec_serial_types(b: Seq<u8>, off: int, end: int) -> Result<
    (Seq<u64>, int),
    DbError,
>
    decreases (if end - off > 0 { end - off } else { 0 }),
    via spec_serial_types_decreases
{
    if off >= end {
        Ok((Seq::empty(), off))
    } else if !varint_complete(b, off) {
        Err(DbError::BoundsViolation)
    } else {
        let n = varint_len(b, off);
        let st = varint_value(b, off) as u64;
        match spec_serial_types(b, off + n, end) {
            Err(e) => Err(e),
            Ok(p) => Ok((seq![st] + p.0, p.1)),
        }
    }
}

#[via_fn]
proof fn spec_serial_types_decreases(b: Seq<u8>, off: int, end: int) {
    if off < end && varint_complete(b, off) {
        crate::codec::lemma_varint_len_from_bounds(b, off, 0);
    }
}

/// The columns decoded for the given serial types, one after the other from
/// offset `off`, together with the offset just past the last column's bytes.
pub open spec fn spec_columns(b: Seq<u8>, types: Seq<u64>, off: int) -> Result<
    (Seq<SpecColumn>, int),
    DbError,
>
    decreases types.len(),
{
    if types.len() == 0 {
        Ok((Seq::empty(), off))
    } else {
        match spec_read_column(types[0] as int, b, off) {
            Err(e) => Err(e),
            Ok(p) => match spec_columns(b, types.drop_first(), p.1) {
                Err(e) => Err(e),
                Ok(q) => Ok((seq![p.0] + q.0, q.1)),
            },
        }
    }
}

/// The record laid down in `b`: a header-length varint, the serial-type
/// varints that fill the rest of the header, then one column per serial type.
pub open spec fn spec_record(b: Seq<u8>) -> Result<SpecRecord, DbError> {
    if !varint_complete(b, 0) {
        Err(DbError::BoundsViolation)
    } else {
        let hlen = varint_value(b, 0);
        let n0 = varint_len(b, 0);
        match spec_serial_types(b, n0, hlen) {
            Err(e) => Err(e),
            Ok(p) => match spec_columns(b, p.0, p.1) {
                Err(e) => Err(e),
                Ok(q) => Ok(SpecRecord { header_size: hlen as u64, body: q.0 }),
            },
        }
    }
}

impl Record {
    /// Decodes a record payload: reads the header-length varint, queues the
    /// serial types that fill the header, then decodes one column per serial
    /// type from the bytes that follow.
    pub fn new(buf: &[u8]) -> (r: Result<Record, DbError>)
        ensures
            match spec_record(buf@) {
                Ok(rec) => r matches Ok(rr) && rr@ == rec,
                Err(e) => r matches Err(e2) && e2 == e,
            },
    {
        let ghost b = buf@;
        let blen = buf.len();
        let (header_size, n0) = match read_var_int(buf, 0) {
            Ok(p) => p,
            Err(e) => {
                return Err(e);
            },
        };
        // the serial types that fill the record header
        let ghost full = spec_serial_types(b, n0 as int, header_size as int);
        let mut types: Vec<u64> = Vec::new();
        let mut cur: usize = n0;
        proof {
            if full is Ok {
                assert(types@ + full->Ok_0.0 =~= full->Ok_0.0);
            }
        }
        while (cur as u64) < header_size
            invariant
                b == buf@,
                blen == b.len(),
                cur <= blen,
                varint_complete(b, 0),
                header_size == varint_value(b, 0),
                n0 == varint_len(b, 0),
                full == spec_serial_types(b, n0 as int, header_size as int),
                match spec_serial_types(b, cur as int, header_size as int) {
                    Ok(p) => full matches Ok(q) && q.0 == types@ + p.0 && q.1 == p.1,
                    Err(e) => full matches Err(e2) && e2 == e,
                },
            decreases (if header_size - cur > 0 {
                header_size - cur
            } else {
                0
            }),
        {
            let (st, n) = match read_var_int(buf, cur) {
                Ok(p) => p,
                Err(e) => {
                    proof {
                        assert(spec_serial_types(b, cur as int, header_size as int) == Err::<
                            (Seq<u64>, int),
                            DbError,
                        >(DbError::BoundsViolation));
                    }
                    return Err(e);
                },
            };
            proof {
                crate::codec::lemma_varint_len_from_bounds(b, cur as int, 0);
            }
            let ghost prev = types@;
            types.push(st);
            proof {
                let rest = spec_serial_types(b, cur + n, header_size as int);
                if rest is Ok {
                    assert(prev + (seq![st] + rest->Ok_0.0) =~= types@ + rest->Ok_0.0);
                }
            }
            cur = cur + n;
        }
        proof {
            assert(spec_serial_types(b, cur as int, header_size as int) == Ok::<
                (Seq<u64>, int),
                DbError,
            >((Seq::empty(), cur as int)));
            if full is Ok {
                assert(full->Ok_0.0 == types@ + Seq::<u64>::empty());
                assert(types@ + Seq::<u64>::empty() =~= types@);
            }
        }
        // the column values, one per serial type
        let ghost fullcols = spec_columns(b, types@, cur as int);
        let mut body: Vec<Column> = Vec::new();
        let mut off: usize = cur;
        let mut idx: usize = 0;
        proof {
            assert(types@.skip(0) =~= types@);
            if fullcols is Ok {
                assert(body@.map_values(|c: Column| c@) + fullcols->Ok_0.0 =~= fullcols->Ok_0.0);
            }
        }
        while idx < types.len()
            invariant
                b == buf@,
                idx <= types@.len(),
                varint_complete(b, 0),
                header_size == varint_value(b, 0),
                spec_serial_types(b, varint_len(b, 0), varint_value(b, 0)) == Ok::<
                    (Seq<u64>, int),
                    DbError,
                >((types@, cur as int)),
                fullcols == spec_columns(b, types@, cur as int),
                match spec_columns(b, types@.skip(idx as int), off as int) {
                    Ok(p) => fullcols matches Ok(q) && q.0 == body@.map_values(|c: Column| c@)
                        + p.0 && q.1 == p.1,
                    Err(e) => fullcols matches Err(e2) && e2 == e,
                },
            decreases types@.len() - idx,
        {
            let st = types[idx];
            proof {
                assert(types@.skip(idx as int)[0] == types@[idx as int]);
                assert(types@.skip(idx as int).drop_first() =~= types@.skip(idx + 1));
            }
            let col = match read_record_column(st, buf, &mut off) {
                Ok(c) => c,
                Err(e) => {
                    proof {
                        assert(spec_columns(b, types@.skip(idx as int), off as int) == Err::<
                            (Seq<SpecColumn>, int),
                            DbError,
                        >(e));
                    }
                    return Err(e);
                },
            };
            let ghost prev = body@;
            body.push(col);
            proof {
                assert(body@.map_values(|c: Column| c@) =~= prev.map_values(|c: Column| c@).push(
                    col@,
                ));
                let rest = spec_columns(b, types@.skip(idx + 1), off as int);
                if rest is Ok {
                    assert(prev.map_values(|c: Column| c@) + (seq![col@] + rest->Ok_0.0)
                        =~= body@.map_values(|c: Column| c@) + rest->Ok_0.0);
                }
            }
            idx = idx + 1;
        }
        proof {
            assert(types@.skip(types@.len() as int) =~= Seq::<u64>::empty());
            if fullcols is Ok {
                assert(fullcols->Ok_0.0 == body@.map_values(|c: Column| c@) + Seq::<
                    SpecColumn,
                >::empty());
                assert(body@.map_values(|c: Column| c@) + Seq::<SpecColumn>::empty()
                    =~= body@.map_values(|c: Column| c@));
            }
        }
        Ok(Record { header_size, body })
    }
}

// ---------------------------------------------------------------------------
// Column equality and ordering
// ---------------------------------------------------------------------------
//
// The comparison rules back the index traversal. Null sorts below everything
// else; signed integers compare by value; text and blob values sort above all
// numeric values, text before blob, and among themselves byte-wise
// lexicographically (the format leaves their order to the implementation, so
// that policy is fixed here and documented). Booleans have no order, and any
// comparison that would need floating-point arithmetic is refused, both as a
// `TypeMismatch`.

/// The outcome of comparing two column values.
#[derive(Clone, Copy, Debug, PartialEq, Eq, Structural)]
pub enum ColumnOrder {
    Less,
    Equal,
    Greater,
}

/// Whether a column holds a signed integer value.
pub open spec fn spec_is_int(c: SpecColumn) -> bool {
    match c {
        SpecColumn::I8(_) => true,
        SpecColumn::I16(_) => true,
        SpecColumn::I24(_) => true,
        SpecColumn::I32(_) => true,
        SpecColumn::I48(_) => true,
        SpecColumn::I64(_) => true,
        _ => false,
    }
}

/// The mathematical value of a signed integer column.
pub open spec fn spec_int_value(c: SpecColumn) -> int
    recommends
        spec_is_int(c),
{
    match c {
        SpecColumn::I8(v) => v as int,
        SpecColumn::I16(v) => v as int,
        SpecColumn::I24(v) => v as int,
        SpecColumn::I32(v) => v as int,
        SpecColumn::I48(v) => v as int,
        SpecColumn::I64(v) => v as int,
        _ => 0,
    }
}

/// Byte-wise lexicographic comparison of `a` and `b`, both already equal
/// before index `i`.
pub open spec fn spec_bytes_cmp_from(a: Seq<u8>, b: Seq<u8>, i: int) -> ColumnOrder
    decreases a.len() - i,
{
    if i >= a.len() && i >= b.len() {
        ColumnOrder::Equal
    } else if i >= a.len() {
        ColumnOrder::Less
    } else if i >= b.len() {
        ColumnOrder::Greater
    } else if a[i] < b[i] {
        ColumnOrder::Less
    } else if a[i] > b[i] {
        ColumnOrder::Greater
    } else {
        spec_bytes_cmp_from(a, b, i + 1)
    }
}

/// Byte-wise lexicographic comparison.
pub open spec fn spec_bytes_cmp(a: Seq<u8>, b: Seq<u8>) -> ColumnOrder {
    spec_bytes_cmp_from(a, b, 0)
}

/// Equality between two column values. Two texts or two blobs are equal when
/// their bytes are; a boolean equals only its own variant; null equals only
/// null; integers compare by value. Equality that would need floating-point
/// arithmetic (a stored eight-byte float against any numeric value) is a
/// `TypeMismatch`.
pub open spec fn spec_col_eq(a: SpecColumn, b: SpecColumn) -> Result<bool, DbError> {
    match a {
        SpecColumn::Null => Ok(b is Null),
        SpecColumn::False => Ok(b is False),
        SpecColumn::True => Ok(b is True),
        SpecColumn::Text(_, d1) => match b {
            SpecColumn::Text(_, d2) => Ok(d1 == d2),
            _ => Ok(false),
        },
        SpecColumn::Blob(_, d1) => match b {
            SpecColumn::Blob(_, d2) => Ok(d1 == d2),
            _ => Ok(false),
        },
        SpecColumn::F64(_) => if b is F64 || spec_is_int(b) {
            Err(DbError::TypeMismatch)
        } else {
            Ok(false)
        },
        _ => if spec_is_int(b) {
            Ok(spec_int_value(a) == spec_int_value(b))
        } else if b is F64 {
            Err(DbError::TypeMismatch)
        } else {
            Ok(false)
        },
    }
}

/// Ordering between two column values, as the index traversal needs it.
pub open spec fn spec_col_cmp(a: SpecColumn, b: SpecColumn) -> Result<ColumnOrder, DbError> {
    match a {
        SpecColumn::Null => match b {
            SpecColumn::Null => Ok(ColumnOrder::Equal),
            _ => Ok(ColumnOrder::Less),
        },
        SpecColumn::True => Err(DbError::TypeMismatch),
        SpecColumn::False => Err(DbError::TypeMismatch),
        SpecColumn::Text(_, d1) => match b {
            SpecColumn::Null => Ok(ColumnOrder::Greater),
            SpecColumn::True => Err(DbError::TypeMismatch),
            SpecColumn::False => Err(DbError::TypeMismatch),
            SpecColumn::Text(_, d2) => Ok(spec_bytes_cmp(d1, d2)),
            SpecColumn::Blob(_, _) => Ok(ColumnOrder::Less),
            _ => Ok(ColumnOrder::Greater),
        },
        SpecColumn::Blob(_, d1) => match b {
            SpecColumn::Null => Ok(ColumnOrder::Greater),
            SpecColumn::True => Err(DbError::TypeMismatch),
            SpecColumn::False => Err(DbError::TypeMismatch),
            SpecColumn::Text(_, _) => Ok(ColumnOrder::Greater),
            SpecColumn::Blob(_, d2) => Ok(spec_bytes_cmp(d1, d2)),
            _ => Ok(ColumnOrder::Greater),
        },
        SpecColumn::F64(_) => match b {
            SpecColumn::Null => Ok(ColumnOrder::Greater),
            SpecColumn::True => Err(DbError::TypeMismatch),
            SpecColumn::False => Err(DbError::TypeMismatch),
            SpecColumn::Text(_, _) => Ok(ColumnOrder::Less),
            SpecColumn::Blob(_, _) => Ok(ColumnOrder::Less),
            _ => Err(DbError::TypeMismatch),
        },
        _ => match b {
            SpecColumn::Null => Ok(ColumnOrder::Greater),
            SpecColumn::True => Err(DbError::TypeMismatch),
            SpecColumn::False => Err(DbError::TypeMismatch),
            SpecColumn::Text(_, _) => Ok(ColumnOrder::Less),
            SpecColumn::Blob(_, _) => Ok(ColumnOrder::Less),
            SpecColumn::F64(_) => Err(DbError::TypeMismatch),
            _ => if spec_int_value(a) < spec_int_value(b) {
                Ok(ColumnOrder::Less)
            } else if spec_int_value(a) == spec_int_value(b) {
                Ok(ColumnOrder::Equal)
            } else {
                Ok(ColumnOrder::Greater)
            },
        },
    }
}

/// The unsigned 64-bit value the index engine reads out of a column that
/// refers to a table row: a signed integer taken modulo `2^64`, or a boolean
/// as zero or one. Anything else is a `TypeMismatch`.
pub open spec fn spec_force_u64(c: SpecColumn) -> Result<u64, DbError> {
    if spec_is_int(c) {
        let v = spec_int_value(c);
        if v >= 0 {
            Ok(v as u64)
        } else {
            Ok((v + 0x10000000000000000) as u64)
        }
    } else if c is True {
        Ok(1)
    } else if c is False {
        Ok(0)
    } else {
        Err(DbError::TypeMismatch)
    }
}

/// Compares two byte vectors lexicographically.
fn compare_bytes(a: &Vec<u8>, b: &Vec<u8>) -> (r: ColumnOrder)
    ensures
        r == spec_bytes_cmp(a@, b@),
{
    let alen = a.len();
    let blen = b.len();
    let mut i: usize = 0;
    loop
        invariant
            0 <= i,
            alen == a@.len(),
            blen == b@.len(),
            spec_bytes_cmp(a@, b@) == spec_bytes_cmp_from(a@, b@, i as int),
        decreases alen - i,
    {
        if i >= alen && i >= blen {
            return ColumnOrder::Equal;
        }
        if i >= alen {
            return ColumnOrder::Less;
        }
        if i >= blen {
            return ColumnOrder::Greater;
        }
        if a[i] < b[i] {
            return ColumnOrder::Less;
        }
        if a[i] > b[i] {
            return ColumnOrder::Greater;
        }
        i = i + 1;
    }
}

/// Checks two byte vectors for equality.
fn bytes_equal(a: &Vec<u8>, b: &Vec<u8>) -> (r: bool)
    ensures
        r == (a@ == b@),
{
    let alen = a.len();
    if alen != b.len() {
        return false;
    }
    let mut i: usize = 0;
    while i < alen
        invariant
            0 <= i <= alen,
            alen == a@.len(),
            alen == b@.len(),
            forall|k: int| 0 <= k < i ==> a@[k] == b@[k],
        decreases alen - i,
    {
        if a[i] != b[i] {
            return false;
        }
        i = i + 1;
    }
    proof {
        assert(a@ =~= b@);
    }
    true
}

impl Column {
    /// Whether this column holds a signed integer value.
    pub fn is_int(&self) -> (r: bool)
        ensures
            r == spec_is_int(self@),
    {
        match self {
            Column::I8(_) => true,
            Column::I16(_) => true,
            Column::I24(_) => true,
            Column::I32(_) => true,
            Column::I48(_) => true,
            Column::I64(_) => true,
            _ => false,
        }
    }

    /// The value of a signed integer column, widened to 64 bits.
    pub fn int_value(&self) -> (r: i64)
        requires
            spec_is_int(self@),
        ensures
            r == spec_int_value(self@),
    {
        match self {
            Column::I8(v) => *v as i64,
            Column::I16(v) => *v as i64,
            Column::I24(v) => *v as i64,
            Column::I32(v) => *v as i64,
            Column::I48(v) => *v,
            Column::I64(v) => *v,
            _ => 0,
        }
    }

    /// Equality between two column values, as `spec_col_eq` defines it.
    pub fn equals(&self, other: &Column) -> (r: Result<bool, DbError>)
        ensures
            r == spec_col_eq(self@, other@),
    {
        match self {
            Column::NULL(_) => Ok(match other {
                Column::NULL(_) => true,
                _ => false,
            }),
            Column::False(_) => Ok(match other {
                Column::False(_) => true,
                _ => false,
            }),
            Column::True(_) => Ok(match other {
                Column::True(_) => true,
                _ => false,
            }),
            Column::Text(t1) => match other {
                Column::Text(t2) => Ok(bytes_equal(&t1.data, &t2.data)),
                _ => Ok(false),
            },
            Column::Blob(b1) => match other {
                Column::Blob(b2) => Ok(bytes_equal(&b1.data, &b2.data)),
                _ => Ok(false),
            },
            Column::F64(_) => {
                if other.is_int() {
                    Err(DbError::TypeMismatch)
                } else {
                    match other {
                        Column::F64(_) => Err(DbError::TypeMismatch),
                        _ => Ok(false),
                    }
                }
            },
            _ => {
                if other.is_int() {
                    Ok(self.int_value() == other.int_value())
                } else {
                    match other {
                        Column::F64(_) => Err(DbError::TypeMismatch),
                        _ => Ok(false),
                    }
                }
            },
        }
    }

    /// Ordering between two column values, as `spec_col_cmp` defines it.
    pub fn compare(&self, other: &Column) -> (r: Result<ColumnOrder, DbError>)
        ensures
            r == spec_col_cmp(self@, other@),
    {
        match self {
            Column::NULL(_) => Ok(match other {
                Column::NULL(_) => ColumnOrder::Equal,
                _ => ColumnOrder::Less,
            }),
            Column::True(_) => Err(DbError::TypeMismatch),
            Column::False(_) => Err(DbError::TypeMismatch),
            Column::Text(t1) => match other {
                Column::NULL(_) => Ok(ColumnOrder::Greater),
                Column::True(_) => Err(DbError::TypeMismatch),
                Column::False(_) => Err(DbError::TypeMismatch),
                Column::Text(t2) => Ok(compare_bytes(&t1.data, &t2.data)),
                Column::Blob(_) => Ok(ColumnOrder::Less),
                _ => Ok(ColumnOrder::Greater),
            },
            Column::Blob(b1) => match other {
                Column::NULL(_) => Ok(ColumnOrder::Greater),
                Column::True(_) => Err(DbError::TypeMismatch),
                Column::False(_) => Err(DbError::TypeMismatch),
                Column::Text(_) => Ok(ColumnOrder::Greater),
                Column::Blob(b2) => Ok(compare_bytes(&b1.data, &b2.data)),
                _ => Ok(ColumnOrder::Greater),
            },
            Column::F64(_) => match other {
                Column::NULL(_) => Ok(ColumnOrder::Greater),
                Column::True(_) => Err(DbError::TypeMismatch),
                Column::False(_) => Err(DbError::TypeMismatch),
                Column::Text(_) => Ok(ColumnOrder::Less),
                Column::Blob(_) => Ok(ColumnOrder::Less),
                _ => Err(DbError::TypeMismatch),
            },
            _ => match other {
                Column::NULL(_) => Ok(ColumnOrder::Greater),
                Column::True(_) => Err(DbError::TypeMismatch),
                Column::False(_) => Err(DbError::TypeMismatch),
                Column::Text(_) => Ok(ColumnOrder::Less),
                Column::Blob(_) => Ok(ColumnOrder::Less),
                Column::F64(_) => Err(DbError::TypeMismatch),
                _ => {
                    let va = self.int_value();
                    let vb = other.int_value();
                    if va < vb {
                        Ok(ColumnOrder::Less)
                    } else if va == vb {
                        Ok(ColumnOrder::Equal)
                    } else {
                        Ok(ColumnOrder::Greater)
                    }
                },
            },
        }
    }
}

/// Reads a table row id out of an index record's last column: a signed
/// integer taken modulo `2^64`, or a boolean as zero or one.
pub fn force_cast_column_to_u64(c: &Column) -> (r: Result<u64, DbError>)
    ensures
        r == spec_force_u64(c@),
{
    if c.is_int() {
        let v = c.int_value();
        if v >= 0 {
            Ok(v as u64)
        } else {
            Ok((((v + 0x4000000000000000) + 0x4000000000000000) as u64) + 0x8000000000000000)
        }
    } else {
        match c {
            Column::True(_) => Ok(1),
            Column::False(_) => Ok(0),
            _ => Err(DbError::TypeMismatch),
        }
    }
}

} // verus!
