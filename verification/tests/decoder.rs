use sqlite_reader::codec::{encode_var_int, read_u16, read_u32, read_var_int};
use sqlite_reader::errors::DbError;
use sqlite_reader::header::SqliteHeader;
use sqlite_reader::page::{IndexBTreeLeafCell, TableBTreeInteriorCell, TableBTreeLeafCell};
use sqlite_reader::record::{
    force_cast_column_to_u64, read_record_column, Blob, Column, ColumnOrder, Record, Text, NULL,
};

const MAGIC: [u8; 16] = [
    0x53, 0x51, 0x4c, 0x69, 0x74, 0x65, 0x20, 0x66, 0x6f, 0x72, 0x6d, 0x61, 0x74, 0x20, 0x33,
    0x00,
];

fn header_buf(page_size: u16, version: u32) -> Vec<u8> {
    let mut buf = vec![0u8; 100];
    buf[..16].copy_from_slice(&MAGIC);
    buf[16..18].copy_from_slice(&page_size.to_be_bytes());
    buf[96..100].copy_from_slice(&version.to_be_bytes());
    buf
}

#[test]
fn fixed_width_reads() {
    let buf = [0x12u8, 0x34, 0x56, 0x78, 0x9a];
    assert_eq!(read_u16(&buf, 0), 0x1234);
    assert_eq!(read_u16(&buf, 3), 0x789a);
    assert_eq!(read_u32(&buf, 1), 0x3456789a);
}

#[test]
fn varint_single_byte() {
    let buf = [0x2au8, 0xff];
    let (value, used) = read_var_int(&buf, 0).unwrap();
    assert_eq!(value, 42);
    assert_eq!(used, 1);
}

#[test]
fn varint_two_bytes() {
    // 0x81 0x00 carries 1 << 7
    let buf = [0x81u8, 0x00];
    let (value, used) = read_var_int(&buf, 0).unwrap();
    assert_eq!(value, 128);
    assert_eq!(used, 2);
}

#[test]
fn varint_round_trip_values() {
    let samples: [u64; 12] = [
        0,
        1,
        127,
        128,
        16383,
        16384,
        0xdead_beef,
        (1 << 56) - 1,
        1 << 56,
        (1 << 57) + 5,
        u64::MAX - 1,
        u64::MAX,
    ];
    for &v in samples.iter() {
        let enc = encode_var_int(v);
        assert!(1 <= enc.len() && enc.len() <= 9);
        let (value, used) = read_var_int(&enc, 0).unwrap();
        assert_eq!(value, v);
        assert_eq!(used, enc.len());
    }
}

#[test]
fn varint_nine_byte_boundary() {
    // any value of 2^57 or above takes exactly nine bytes, with the ninth
    // byte fully significant
    let v: u64 = (1 << 57) | 0xa5;
    let enc = encode_var_int(v);
    assert_eq!(enc.len(), 9);
    assert_eq!(enc[8], 0xa5);
    let (value, used) = read_var_int(&enc, 0).unwrap();
    assert_eq!(value, v);
    assert_eq!(used, 9);
}

#[test]
fn varint_truncated_buffer() {
    let buf = [0x80u8, 0x80];
    assert_eq!(read_var_int(&buf, 0), Err(DbError::BoundsViolation));
    assert_eq!(read_var_int(&buf, 5), Err(DbError::BoundsViolation));
}

#[test]
fn header_parses_page_size() {
    let buf = header_buf(0x1000, 3007000);
    let h = SqliteHeader::new(&buf).unwrap();
    assert_eq!(h.page_size, 4096);
    assert_eq!(h.version, 3007000);
    assert_eq!(&h.version_string[..], &MAGIC[..]);
}

#[test]
fn header_rejects_any_corrupt_signature_byte() {
    for i in 0..16 {
        let mut buf = header_buf(0x1000, 0);
        buf[i] ^= 0x40;
        match SqliteHeader::new(&buf) {
            Err(DbError::FormatMismatch) => {}
            other => panic!("byte {} accepted: {:?}", i, other.is_ok()),
        }
    }
}

#[test]
fn header_rejects_short_buffer() {
    let buf = vec![0u8; 99];
    assert!(matches!(SqliteHeader::new(&buf), Err(DbError::BoundsViolation)));
}

#[test]
fn table_leaf_cell_round_trip() {
    // payloadLength=5, rowId=42, payload=[1,2,3,4,5]
    let mut page = vec![0u8; 64];
    let off = 10;
    page[off] = 5;
    page[off + 1] = 42;
    page[off + 2..off + 7].copy_from_slice(&[1, 2, 3, 4, 5]);
    let cell = TableBTreeLeafCell::new(&page, off).unwrap();
    assert_eq!(cell.payload_size, 5);
    assert_eq!(cell.row_id, 42);
    assert_eq!(cell.payload, vec![1, 2, 3, 4, 5]);
    assert_eq!(cell.overflow_page, 0);
}

#[test]
fn table_leaf_cell_overflow_refused() {
    // a declared payload longer than the page is the unsupported overflow case
    let mut page = vec![0u8; 8];
    page[0] = 50;
    page[1] = 1;
    assert!(matches!(TableBTreeLeafCell::new(&page, 0), Err(DbError::OverflowUnsupported)));
}

#[test]
fn table_interior_cell_layout() {
    let mut page = vec![0u8; 16];
    page[4..8].copy_from_slice(&7u32.to_be_bytes());
    page[8] = 13;
    let cell = TableBTreeInteriorCell::new(&page, 4).unwrap();
    assert_eq!(cell.left_child_pointer, 7);
    assert_eq!(cell.row_id, 13);
}

#[test]
fn index_leaf_cell_layout() {
    let mut page = vec![0u8; 16];
    page[2] = 3;
    page[3..6].copy_from_slice(&[9, 8, 7]);
    let cell = IndexBTreeLeafCell::new(&page, 2).unwrap();
    assert_eq!(cell.payload_size, 3);
    assert_eq!(cell.payload, vec![9, 8, 7]);
}

#[test]
fn record_single_int8_column() {
    // header varints are [serialType=1], one payload byte 0xFF: Int8(-1)
    let payload = [2u8, 1, 0xff];
    let rec = Record::new(&payload).unwrap();
    assert_eq!(rec.header_size, 2);
    assert_eq!(rec.body.len(), 1);
    assert!(matches!(rec.body[0], Column::I8(-1)));
}

#[test]
fn record_mixed_columns() {
    // null, int16, bool true, text "hi"
    let mut payload: Vec<u8> = vec![5, 0, 2, 9, 17];
    payload.extend_from_slice(&0x0203u16.to_be_bytes());
    payload.extend_from_slice(b"hi");
    let rec = Record::new(&payload).unwrap();
    assert_eq!(rec.body.len(), 4);
    assert!(matches!(rec.body[0], Column::NULL(_)));
    assert!(matches!(rec.body[1], Column::I16(0x0203)));
    assert!(matches!(rec.body[2], Column::True(_)));
    match &rec.body[3] {
        Column::Text(t) => {
            assert_eq!(t.size, 2);
            assert_eq!(t.data, b"hi".to_vec());
        }
        other => panic!("expected text, got {:?}", other),
    }
}

#[test]
fn record_reserved_serial_type_refused() {
    let payload = [2u8, 10, 0, 0];
    assert!(matches!(Record::new(&payload), Err(DbError::UnsupportedSerialType)));
}

#[test]
fn record_invalid_text_refused() {
    // serial type 17 is a two-byte text column; 0xff 0xff is not UTF-8
    let payload = [2u8, 17, 0xff, 0xff];
    assert!(matches!(Record::new(&payload), Err(DbError::InvalidTextEncoding)));
}

#[test]
fn record_sign_extension() {
    // Int24 with the top bit set must sign-extend
    let mut payload: Vec<u8> = vec![2, 3];
    payload.extend_from_slice(&[0xff, 0xff, 0xfe]);
    let rec = Record::new(&payload).unwrap();
    assert!(matches!(rec.body[0], Column::I24(-2)));

    // Int48 negative
    let mut payload: Vec<u8> = vec![2, 5];
    payload.extend_from_slice(&[0xff, 0xff, 0xff, 0xff, 0xff, 0xfd]);
    let rec = Record::new(&payload).unwrap();
    assert!(matches!(rec.body[0], Column::I48(-3)));
}

#[test]
fn record_float_kept_as_bits() {
    let bits = 2.5f64.to_bits();
    let mut payload: Vec<u8> = vec![2, 7];
    payload.extend_from_slice(&bits.to_be_bytes());
    let rec = Record::new(&payload).unwrap();
    match rec.body[0] {
        Column::F64(raw) => assert_eq!(f64::from_bits(raw), 2.5),
        _ => panic!("expected a float column"),
    }
}

#[test]
fn column_zero_decode_when_bytes_missing() {
    // a fixed-width column whose stored width extends past the buffer decodes
    // to a zero value without moving the offset
    let buf = [9u8];
    let mut off = 1usize;
    let col = read_record_column(4, &buf, &mut off).unwrap();
    assert!(matches!(col, Column::I32(0)));
    assert_eq!(off, 1);
}

#[test]
fn column_equality_across_widths() {
    assert_eq!(Column::I8(7).equals(&Column::I64(7)), Ok(true));
    assert_eq!(Column::I16(-2).equals(&Column::I48(-2)), Ok(true));
    assert_eq!(Column::I8(7).equals(&Column::I64(8)), Ok(false));
    assert_eq!(Column::I8(7).equals(&Column::NULL(NULL {})), Ok(false));
    assert_eq!(
        Column::NULL(NULL {})
            .equals(&Column::NULL(NULL {})),
        Ok(true)
    );
    assert_eq!(Column::True(true).equals(&Column::True(true)), Ok(true));
    assert_eq!(Column::True(true).equals(&Column::False(false)), Ok(false));
}

#[test]
fn column_float_comparison_refused() {
    assert_eq!(Column::F64(0).equals(&Column::I64(0)), Err(DbError::TypeMismatch));
    assert_eq!(Column::I8(1).equals(&Column::F64(1)), Err(DbError::TypeMismatch));
    assert_eq!(Column::F64(1).compare(&Column::F64(2)), Err(DbError::TypeMismatch));
}

#[test]
fn column_ordering() {
    assert_eq!(Column::I8(3).compare(&Column::I64(5)), Ok(ColumnOrder::Less));
    assert_eq!(Column::I64(5).compare(&Column::I8(3)), Ok(ColumnOrder::Greater));
    assert_eq!(Column::I32(4).compare(&Column::I16(4)), Ok(ColumnOrder::Equal));
    assert_eq!(Column::NULL(NULL {}).compare(&Column::I8(-120)), Ok(ColumnOrder::Less));
    assert_eq!(Column::I8(-120).compare(&Column::NULL(NULL {})), Ok(ColumnOrder::Greater));
    // text and blob sort above numeric values, text before blob
    let text = Column::Text(Text { size: 1, data: vec![b'a'] });
    let blob = Column::Blob(Blob { size: 1, data: vec![0x00] });
    assert_eq!(Column::I64(i64::MAX).compare(&text), Ok(ColumnOrder::Less));
    assert_eq!(text.compare(&blob), Ok(ColumnOrder::Less));
    assert_eq!(blob.compare(&text), Ok(ColumnOrder::Greater));
    // byte-wise lexicographic order among texts
    let ab = Column::Text(Text { size: 2, data: b"ab".to_vec() });
    let b = Column::Text(Text { size: 1, data: b"b".to_vec() });
    assert_eq!(ab.compare(&b), Ok(ColumnOrder::Less));
    assert_eq!(ab.compare(&ab), Ok(ColumnOrder::Equal));
    // booleans have no order
    assert_eq!(Column::True(true).compare(&Column::True(true)), Err(DbError::TypeMismatch));
    assert_eq!(Column::I8(0).compare(&Column::False(false)), Err(DbError::TypeMismatch));
}

#[test]
fn force_cast_to_u64() {
    assert_eq!(force_cast_column_to_u64(&Column::I64(9)), Ok(9));
    assert_eq!(force_cast_column_to_u64(&Column::I8(-1)), Ok(u64::MAX));
    assert_eq!(force_cast_column_to_u64(&Column::True(true)), Ok(1));
    assert_eq!(force_cast_column_to_u64(&Column::False(false)), Ok(0));
    assert_eq!(
        force_cast_column_to_u64(&Column::NULL(NULL {})),
        Err(DbError::TypeMismatch)
    );
}
