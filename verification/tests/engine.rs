use sqlite_reader::btree::{
    find_by_primary_key, find_by_primary_key_list, find_key_in_index, find_keys_in_index,
    read_page, read_table, PAGE_SIZE,
};
use sqlite_reader::codec::encode_var_int;
use sqlite_reader::errors::DbError;
use sqlite_reader::page::{read_first_page, Page, TableBTreeLeafCell};
use sqlite_reader::record::Column;

fn put_u16(buf: &mut [u8], off: usize, v: u16) {
    buf[off..off + 2].copy_from_slice(&v.to_be_bytes());
}

fn put_u32(buf: &mut [u8], off: usize, v: u32) {
    buf[off..off + 4].copy_from_slice(&v.to_be_bytes());
}

fn push_bytes(page: &mut [u8], pos: &mut usize, bytes: &[u8]) {
    page[*pos..*pos + bytes.len()].copy_from_slice(bytes);
    *pos += bytes.len();
}

/// A record with two one-byte integer columns, as index entries use them.
fn record_two_ints(value: i8, row_id: i8) -> Vec<u8> {
    vec![3, 1, 1, value as u8, row_id as u8]
}

/// A record with one one-byte integer column, as the table rows here use it.
fn record_one_int(value: i8) -> Vec<u8> {
    vec![2, 1, value as u8]
}

fn table_leaf_page(cells: &[(u64, Vec<u8>)]) -> Vec<u8> {
    let mut page = vec![0u8; PAGE_SIZE];
    page[0] = 0x0d;
    put_u16(&mut page, 3, cells.len() as u16);
    let mut pos = 8 + 2 * cells.len();
    for (i, (row_id, payload)) in cells.iter().enumerate() {
        put_u16(&mut page, 8 + 2 * i, pos as u16);
        push_bytes(&mut page, &mut pos, &encode_var_int(payload.len() as u64));
        push_bytes(&mut page, &mut pos, &encode_var_int(*row_id));
        push_bytes(&mut page, &mut pos, payload);
    }
    page
}

fn table_interior_page(cells: &[(u32, u64)], right_most: u32) -> Vec<u8> {
    let mut page = vec![0u8; PAGE_SIZE];
    page[0] = 0x05;
    put_u16(&mut page, 3, cells.len() as u16);
    put_u32(&mut page, 8, right_most);
    let mut pos = 12 + 2 * cells.len();
    for (i, (child, row_id)) in cells.iter().enumerate() {
        put_u16(&mut page, 12 + 2 * i, pos as u16);
        push_bytes(&mut page, &mut pos, &child.to_be_bytes());
        push_bytes(&mut page, &mut pos, &encode_var_int(*row_id));
    }
    page
}

fn index_leaf_page(records: &[Vec<u8>]) -> Vec<u8> {
    let mut page = vec![0u8; PAGE_SIZE];
    page[0] = 0x0a;
    put_u16(&mut page, 3, records.len() as u16);
    let mut pos = 8 + 2 * records.len();
    for (i, payload) in records.iter().enumerate() {
        put_u16(&mut page, 8 + 2 * i, pos as u16);
        push_bytes(&mut page, &mut pos, &encode_var_int(payload.len() as u64));
        push_bytes(&mut page, &mut pos, payload);
    }
    page
}

fn index_interior_page(cells: &[(u32, Vec<u8>)], right_most: u32) -> Vec<u8> {
    let mut page = vec![0u8; PAGE_SIZE];
    page[0] = 0x02;
    put_u16(&mut page, 3, cells.len() as u16);
    put_u32(&mut page, 8, right_most);
    let mut pos = 12 + 2 * cells.len();
    for (i, (child, payload)) in cells.iter().enumerate() {
        put_u16(&mut page, 12 + 2 * i, pos as u16);
        push_bytes(&mut page, &mut pos, &child.to_be_bytes());
        push_bytes(&mut page, &mut pos, &encode_var_int(payload.len() as u64));
        push_bytes(&mut page, &mut pos, payload);
    }
    page
}

fn file_image(pages: &[(usize, Vec<u8>)]) -> Vec<u8> {
    let count = pages.iter().map(|(n, _)| *n).max().unwrap();
    let mut file = vec![0u8; count * PAGE_SIZE];
    for (n, page) in pages {
        file[(n - 1) * PAGE_SIZE..n * PAGE_SIZE].copy_from_slice(page);
    }
    file
}

/// A table with row ids {1, 2, 3, 5, 8, 13}: an interior root on page 2 over
/// two leaves on pages 3 and 4.
fn sample_table() -> Vec<u8> {
    let leaf_low = table_leaf_page(&[
        (1, record_one_int(11)),
        (2, record_one_int(12)),
        (3, record_one_int(13)),
    ]);
    let leaf_high = table_leaf_page(&[
        (5, record_one_int(15)),
        (8, record_one_int(18)),
        (13, record_one_int(23)),
    ]);
    let root = table_interior_page(&[(3, 3)], 4);
    file_image(&[(2, root), (3, leaf_low), (4, leaf_high)])
}

fn row_ids(cells: &[TableBTreeLeafCell]) -> Vec<u64> {
    cells.iter().map(|c| c.row_id).collect()
}

#[test]
fn read_page_dispatch() {
    let file = sample_table();
    assert!(matches!(read_page(&file, 2), Ok(Page::TableBTreeInteriorPage(_))));
    assert!(matches!(read_page(&file, 3), Ok(Page::TableBTreeLeafPage(_))));
}

#[test]
fn read_page_rejects_page_zero_and_out_of_range() {
    let file = sample_table();
    assert!(matches!(read_page(&file, 0), Err(DbError::BoundsViolation)));
    assert!(matches!(read_page(&file, 5), Err(DbError::BoundsViolation)));
}

#[test]
fn read_page_rejects_unknown_type_flag() {
    let mut page = vec![0u8; PAGE_SIZE];
    page[0] = 0x03;
    let file = file_image(&[(1, page)]);
    assert!(matches!(read_page(&file, 1), Err(DbError::UnsupportedPageType)));
}

#[test]
fn scan_table_rows_ascend() {
    let file = sample_table();
    let mut cells: Vec<TableBTreeLeafCell> = Vec::new();
    read_table(&file, 2, &mut cells).unwrap();
    assert_eq!(row_ids(&cells), vec![1, 2, 3, 5, 8, 13]);
    for w in cells.windows(2) {
        assert!(w[0].row_id < w[1].row_id);
    }
}

#[test]
fn scan_table_refuses_index_root() {
    let file = file_image(&[(1, index_leaf_page(&[record_two_ints(1, 1)]))]);
    let mut cells: Vec<TableBTreeLeafCell> = Vec::new();
    assert!(matches!(read_table(&file, 1, &mut cells), Err(DbError::TypeMismatch)));
    assert!(cells.is_empty());
}

#[test]
fn scan_detects_cyclic_pages() {
    // an interior page whose child is itself never reaches a leaf
    let root = table_interior_page(&[(1, 10)], 1);
    let file = file_image(&[(1, root)]);
    let mut cells: Vec<TableBTreeLeafCell> = Vec::new();
    assert!(matches!(read_table(&file, 1, &mut cells), Err(DbError::DepthExceeded)));
}

#[test]
fn point_lookup_finds_every_present_key() {
    let file = sample_table();
    for (key, val) in [(1u64, 11u8), (2, 12), (3, 13), (5, 15), (8, 18), (13, 23)] {
        let cell = find_by_primary_key(&file, 2, key).unwrap().unwrap();
        assert_eq!(cell.row_id, key);
        assert_eq!(cell.payload, vec![2, 1, val]);
    }
}

#[test]
fn point_lookup_misses_absent_keys() {
    let file = sample_table();
    assert!(find_by_primary_key(&file, 2, 4).unwrap().is_none());
    assert!(find_by_primary_key(&file, 2, 100).unwrap().is_none());
}

#[test]
fn batched_lookup_matches_single_lookups() {
    let file = sample_table();
    let keys = vec![13u64, 1, 8, 4];
    let batch = find_by_primary_key_list(&file, 2, &keys).unwrap().unwrap();
    assert_eq!(row_ids(&batch), vec![1, 8, 13]);
    for cell in &batch {
        let single = find_by_primary_key(&file, 2, cell.row_id).unwrap().unwrap();
        assert_eq!(single.row_id, cell.row_id);
        assert_eq!(single.payload, cell.payload);
    }
    // every key that a single lookup serves is in the batch
    for &k in &keys {
        if find_by_primary_key(&file, 2, k).unwrap().is_some() {
            assert!(batch.iter().any(|c| c.row_id == k));
        }
    }
}

#[test]
fn batched_lookup_all_keys_of_the_table() {
    let file = sample_table();
    let keys = vec![1u64, 2, 3, 5, 8, 13];
    let batch = find_by_primary_key_list(&file, 2, &keys).unwrap().unwrap();
    assert_eq!(row_ids(&batch), keys);
}

#[test]
fn batched_lookup_empty_and_absent() {
    let file = sample_table();
    assert!(find_by_primary_key_list(&file, 2, &vec![]).unwrap().is_none());
    assert!(find_by_primary_key_list(&file, 2, &vec![4, 100]).unwrap().is_none());
}

#[test]
fn index_lookup_duplicates() {
    // an index mapping value 7 to row ids {3, 7, 9}, in one leaf
    let leaf = index_leaf_page(&[
        record_two_ints(5, 1),
        record_two_ints(7, 3),
        record_two_ints(7, 7),
        record_two_ints(7, 9),
        record_two_ints(9, 2),
    ]);
    let file = file_image(&[(1, leaf)]);
    let all = find_keys_in_index(&file, 1, Column::I64(7)).unwrap().unwrap();
    assert_eq!(all, vec![3, 7, 9]);
    let first = find_key_in_index(&file, 1, Column::I64(7)).unwrap().unwrap();
    assert_eq!(first, 3);
}

#[test]
fn index_lookup_across_interior_page() {
    // entries sorted by (value, row id): leaf [(5,1),(7,3)], routing entry
    // (7,7), leaf [(7,9),(9,2)]
    let leaf_low = index_leaf_page(&[record_two_ints(5, 1), record_two_ints(7, 3)]);
    let leaf_high = index_leaf_page(&[record_two_ints(7, 9), record_two_ints(9, 2)]);
    let root = index_interior_page(&[(2, record_two_ints(7, 7))], 3);
    let file = file_image(&[(1, root), (2, leaf_low), (3, leaf_high)]);
    // the routing entry's own match comes first, then its left subtree's,
    // then the rest
    let all = find_keys_in_index(&file, 1, Column::I64(7)).unwrap().unwrap();
    assert_eq!(all, vec![7, 3, 9]);
    let first = find_key_in_index(&file, 1, Column::I64(7)).unwrap().unwrap();
    assert_eq!(first, 7);
    // a value below every routing entry descends left
    let low = find_keys_in_index(&file, 1, Column::I64(5)).unwrap().unwrap();
    assert_eq!(low, vec![1]);
    // a value above every routing entry lands in the rightmost child
    let high = find_keys_in_index(&file, 1, Column::I64(9)).unwrap().unwrap();
    assert_eq!(high, vec![2]);
}

#[test]
fn index_lookup_absent_value() {
    let leaf = index_leaf_page(&[record_two_ints(5, 1), record_two_ints(9, 2)]);
    let file = file_image(&[(1, leaf)]);
    assert!(find_keys_in_index(&file, 1, Column::I64(6)).unwrap().is_none());
    assert!(find_key_in_index(&file, 1, Column::I64(6)).unwrap().is_none());
}

#[test]
fn index_lookup_refuses_table_root() {
    let file = sample_table();
    assert!(matches!(
        find_keys_in_index(&file, 2, Column::I64(1)),
        Err(DbError::TypeMismatch)
    ));
}

#[test]
fn first_page_decodes_with_adjusted_pointers() {
    // the first page's buffer starts after the 100-byte file header, but its
    // cell pointers are page-relative
    let mut page = vec![0u8; PAGE_SIZE - 100];
    page[0] = 0x0d;
    put_u16(&mut page, 3, 1);
    let payload = record_one_int(42);
    let mut pos = 10usize;
    put_u16(&mut page, 8, (pos + 100) as u16);
    push_bytes(&mut page, &mut pos, &encode_var_int(payload.len() as u64));
    push_bytes(&mut page, &mut pos, &encode_var_int(77));
    push_bytes(&mut page, &mut pos, &payload);
    let decoded = read_first_page(&page).unwrap();
    assert_eq!(decoded.cells.len(), 1);
    assert_eq!(decoded.cells[0].row_id, 77);
    assert_eq!(decoded.cells[0].payload, payload);
}

#[test]
fn scan_leaf_only_root() {
    let leaf = table_leaf_page(&[(4, record_one_int(1)), (9, record_one_int(2))]);
    let file = file_image(&[(1, leaf)]);
    let mut cells: Vec<TableBTreeLeafCell> = Vec::new();
    read_table(&file, 1, &mut cells).unwrap();
    assert_eq!(row_ids(&cells), vec![4, 9]);
    let hit = find_by_primary_key(&file, 1, 9).unwrap().unwrap();
    assert_eq!(hit.row_id, 9);
    assert!(find_by_primary_key(&file, 1, 6).unwrap().is_none());
}

#[test]
fn scan_empty_leaf() {
    let leaf = table_leaf_page(&[]);
    let file = file_image(&[(1, leaf)]);
    let mut cells: Vec<TableBTreeLeafCell> = Vec::new();
    read_table(&file, 1, &mut cells).unwrap();
    assert!(cells.is_empty());
    assert!(find_by_primary_key(&file, 1, 1).unwrap().is_none());
    assert!(find_by_primary_key_list(&file, 1, &vec![1, 2]).unwrap().is_none());
}

#[test]
fn lookup_detects_cyclic_pages() {
    let root = table_interior_page(&[(1, 10)], 1);
    let file = file_image(&[(1, root)]);
    assert!(matches!(find_by_primary_key(&file, 1, 3), Err(DbError::DepthExceeded)));
    assert!(matches!(
        find_by_primary_key_list(&file, 1, &vec![3]),
        Err(DbError::DepthExceeded)
    ));
}

#[test]
fn batched_lookup_with_repeated_keys() {
    let file = sample_table();
    let batch = find_by_primary_key_list(&file, 2, &vec![8, 8, 1]).unwrap().unwrap();
    assert_eq!(row_ids(&batch), vec![1, 8]);
}

#[test]
fn page_error_propagates_through_scan() {
    // a leaf whose only cell declares a payload longer than the page
    let mut page = vec![0u8; PAGE_SIZE];
    page[0] = 0x0d;
    put_u16(&mut page, 3, 1);
    put_u16(&mut page, 8, 10);
    page[10] = 0xfb;  // a two-byte varint follows
    page[11] = 0x7f;  // payload length far beyond the page
    page[12] = 1;  // row id
    let file = file_image(&[(1, page)]);
    let mut cells: Vec<TableBTreeLeafCell> = Vec::new();
    assert!(matches!(read_table(&file, 1, &mut cells), Err(DbError::OverflowUnsupported)));
}
