use crate::codec::{
    be_u16_at, be_u32_at, copy_bytes, read_u16, read_u32, read_var_int, varint_complete,
    varint_len, varint_value,
};
use crate::errors::DbError;
use crate::header::HEADER_SIZE;
use vstd::prelude::*;

verus! {

// ---------------------------------------------------------------------------
// Page headers
// ---------------------------------------------------------------------------

/// The page header common to the two leaf page kinds: eight bytes, followed
/// directly by the cell-pointer array.
#[derive(Clone, Copy, Debug, PartialEq, Eq, Structural)]
pub struct BTreePageLeafHeader {
    /// The leading type-flag byte.
    pub type_flag: u8,
    /// Byte offset of the first freeblock on the page.
    pub freeblock_count: u16,
    /// The number of cells on the page.
    pub cell_count: u16,
    /// Byte offset of the start of the cell content area.
    pub cell_content_start: u16,
    /// The number of fragmented free bytes in the content area.
    pub fragmented_free_bytes: u8,
}

/// The page header of the two interior page kinds: twelve bytes, adding the
/// rightmost child pointer.
#[derive(Clone, Copy, Debug, PartialEq, Eq, Structural)]
pub struct BTreePageInteriorHeader {
    /// The leading type-flag byte.
    pub type_flag: u8,
    /// Byte offset of the first freeblock on the page.
    pub freeblock_count: u16,
    /// The number of cells on the page.
    pub cell_count: u16,
    /// Byte offset of the start of the cell content area.
    pub cell_content_start: u16,
    /// The number of fragmented free bytes in the content area.
    pub fragmented_free_bytes: u8,
    /// The page number of the child covering keys above every cell's key.
    pub right_most_pointer: u32,
}

/// A page header of either shape.
pub enum BTreeHeader {
    Leaf(BTreePageLeafHeader),
    Interior(BTreePageInteriorHeader),
}

/// The leaf page header laid down in the first eight bytes of `b`.
pub open spec fn spec_leaf_header(b: Seq<u8>) -> BTreePageLeafHeader {
    BTreePageLeafHeader {
        type_flag: b[0],
        freeblock_count: be_u16_at(b, 1) as u16,
        cell_count: be_u16_at(b, 3) as u16,
        cell_content_start: be_u16_at(b, 5) as u16,
        fragmented_free_bytes: b[7],
    }
}

/// The interior page header laid down in the first twelve bytes of `b`.
pub open spec fn spec_interior_header(b: Seq<u8>) -> BTreePageInteriorHeader {
    BTreePageInteriorHeader {
        type_flag: b[0],
        freeblock_count: be_u16_at(b, 1) as u16,
        cell_count: be_u16_at(b, 3) as u16,
        cell_content_start: be_u16_at(b, 5) as u16,
        fragmented_free_bytes: b[7],
        right_most_pointer: be_u32_at(b, 8) as u32,
    }
}

impl BTreePageLeafHeader {
    /// Decodes the eight-byte leaf page header at the start of `buf`.
    pub fn new(buf: &[u8]) -> (r: BTreePageLeafHeader)
        requires
            buf@.len() >= 8,
        ensures
            r == spec_leaf_header(buf@),
    {
        BTreePageLeafHeader {
            type_flag: buf[0],
            freeblock_count: read_u16(buf, 1),
            cell_count: read_u16(buf, 3),
            cell_content_start: read_u16(buf, 5),
            fragmented_free_bytes: buf[7],
        }
    }
}

impl BTreePageInteriorHeader {
    /// Decodes the twelve-byte interior page header at the start of `buf`.
    pub fn new(buf: &[u8]) -> (r: BTreePageInteriorHeader)
        requires
            buf@.len() >= 12,
        ensures
            r == spec_interior_header(buf@),
    {
        BTreePageInteriorHeader {
            type_flag: buf[0],
            freeblock_count: read_u16(buf, 1),
            cell_count: read_u16(buf, 3),
            cell_content_start: read_u16(buf, 5),
            fragmented_free_bytes: buf[7],
            right_most_pointer: read_u32(buf, 8),
        }
    }
}

// ---------------------------------------------------------------------------
// Cells
// ---------------------------------------------------------------------------

/// A table-leaf cell: one row of a table, holding its row id and its record
/// payload.
pub struct TableBTreeLeafCell {
    /// The declared length of the payload in bytes.
    pub payload_size: u64,
    /// The integer primary key of the row.
    pub row_id: u64,
    /// The record payload, copied out of the page buffer.
    pub payload: Vec<u8>,
    /// The first overflow page; always zero, overflow is unsupported.
    pub overflow_page: u32,
}

/// A table-interior cell: a child pointer and the greatest row id found in
/// the subtree below that child.
#[derive(Clone, Copy, Debug, PartialEq, Eq, Structural)]
pub struct TableBTreeInteriorCell {
    /// The page number of the left child.
    pub left_child_pointer: u32,
    /// The greatest row id in the subtree rooted at the left child.
    pub row_id: u64,
}

/// An index-leaf cell: a record payload whose first column is the indexed
/// value and whose last column is the referenced table row id.
pub struct IndexBTreeLeafCell {
    /// The declared length of the payload in bytes.
    pub payload_size: u64,
    /// The record payload, copied out of the page buffer.
    pub payload: Vec<u8>,
    /// The first overflow page; always zero, overflow is unsupported.
    pub overflow_page: u32,
}

/// An index-interior cell: a child pointer and a record payload of the same
/// shape as an index-leaf cell, also used as a routing key.
pub struct IndexBTreeInteriorCell {
    /// The page number of the left child.
    pub left_child_pointer: u32,
    /// The declared length of the payload in bytes.
    pub payload_size: u64,
    /// The record payload, copied out of the page buffer.
    pub payload: Vec<u8>,
    /// The first overflow page; always zero, overflow is unsupported.
    pub overflow_page: u32,
}

/// Mathematical view of a table-leaf cell.
pub struct SpecTableLeafCell {
    pub payload_size: u64,
    pub row_id: u64,
    pub payload: Seq<u8>,
    pub overflow_page: u32,
}

/// Mathematical view of an index-leaf cell.
pub struct SpecIndexLeafCell {
    pub payload_size: u64,
    pub payload: Seq<u8>,
    pub overflow_page: u32,
}

/// Mathematical view of an index-interior cell.
pub struct SpecIndexInteriorCell {
    pub left_child_pointer: u32,
    pub payload_size: u64,
    pub payload: Seq<u8>,
    pub overflow_page: u32,
}

impl View for TableBTreeLeafCell {
    type V = SpecTableLeafCell;

    open spec fn view(&self) -> SpecTableLeafCell {
        SpecTableLeafCell {
            payload_size: self.payload_size,
            row_id: self.row_id,
            payload: self.payload@,
            overflow_page: self.overflow_page,
        }
    }
}

impl View for IndexBTreeLeafCell {
    type V = SpecIndexLeafCell;

    open spec fn view(&self) -> SpecIndexLeafCell {
        SpecIndexLeafCell {
            payload_size: self.payload_size,
            payload: self.payload@,
            overflow_page: self.overflow_page,
        }
    }
}

impl View for IndexBTreeInteriorCell {
    type V = SpecIndexInteriorCell;

    open spec fn view(&self) -> SpecIndexInteriorCell {
        SpecIndexInteriorCell {
            left_child_pointer: self.left_child_pointer,
            payload_size: self.payload_size,
            payload: self.payload@,
            overflow_page: self.overflow_page,
        }
    }
}

/// The table-leaf cell stored at byte offset `off` of `page`: a payload-length
/// varint, a row-id varint, then the payload bytes, which must fit on the page.
pub open spec fn spec_table_leaf_cell(page: Seq<u8>, off: int) -> Result<
    SpecTableLeafCell,
    DbError,
> {
    if !varint_complete(page, off) {
        Err(DbError::BoundsViolation)
    } else {
        let n1 = varint_len(page, off);
        let size = varint_value(page, off);
        if !varint_complete(page, off + n1) {
            Err(DbError::BoundsViolation)
        } else {
            let n2 = varint_len(page, off + n1);
            let rid = varint_value(page, off + n1);
            if off + n1 + n2 + size > page.len() {
                Err(DbError::OverflowUnsupported)
            } else {
                Ok(
                    SpecTableLeafCell {
                        payload_size: size as u64,
                        row_id: rid as u64,
                        payload: page.subrange(off + n1 + n2, off + n1 + n2 + size),
                        overflow_page: 0,
                    },
                )
            }
        }
    }
}

/// The table-interior cell stored at byte offset `off` of `page`: a four-byte
/// big-endian child page number, then a row-id varint.
pub open spec fn spec_table_interior_cell(page: Seq<u8>, off: int) -> Result<
    TableBTreeInteriorCell,
    DbError,
> {
    if off < 0 || off + 4 > page.len() {
        Err(DbError::BoundsViolation)
    } else if !varint_complete(page, off + 4) {
        Err(DbError::BoundsViolation)
    } else {
        Ok(
            TableBTreeInteriorCell {
                left_child_pointer: be_u32_at(page, off) as u32,
                row_id: varint_value(page, off + 4) as u64,
            },
        )
    }
}

/// The index-leaf cell stored at byte offset `off` of `page`: a payload-length
/// varint, then the payload bytes, which must fit on the page.
pub open spec fn spec_index_leaf_cell(page: Seq<u8>, off: int) -> Result<
    SpecIndexLeafCell,
    DbError,
> {
    if !varint_complete(page, off) {
        Err(DbError::BoundsViolation)
    } else {
        let n1 = varint_len(page, off);
        let size = varint_value(page, off);
        if off + n1 + size > page.len() {
            Err(DbError::OverflowUnsupported)
        } else {
            Ok(
                SpecIndexLeafCell {
                    payload_size: size as u64,
                    payload: page.subrange(off + n1, off + n1 + size),
                    overflow_page: 0,
                },
            )
        }
    }
}

/// The index-interior cell stored at byte offset `off` of `page`: a four-byte
/// big-endian child page number, a payload-length varint, then the payload.
pub open spec fn spec_index_interior_cell(page: Seq<u8>, off: int) -> Result<
    SpecIndexInteriorCell,
    DbError,
> {
    if off < 0 || off + 4 > page.len() {
        Err(DbError::BoundsViolation)
    } else if !varint_complete(page, off + 4) {
        Err(DbError::BoundsViolation)
    } else {
        let n1 = varint_len(page, off + 4);
        let size = varint_value(page, off + 4);
        if off + 4 + n1 + size > page.len() {
            Err(DbError::OverflowUnsupported)
        } else {
            Ok(
                SpecIndexInteriorCell {
                    left_child_pointer: be_u32_at(page, off) as u32,
                    payload_size: size as u64,
                    payload: page.subrange(off + 4 + n1, off + 4 + n1 + size),
                    overflow_page: 0,
                },
            )
        }
    }
}

impl TableBTreeLeafCell {
    /// Decodes the table-leaf cell at byte offset `offset` of `page`.
    pub fn new(page: &[u8], offset: usize) -> (r: Result<TableBTreeLeafCell, DbError>)
        ensures
            match spec_table_leaf_cell(page@, offset as int) {
                Ok(c) => r matches Ok(cell) && cell@ == c,
                Err(e) => r == Err::<TableBTreeLeafCell, DbError>(e),
            },
    {
        let page_len = page.len();
        let (payload_size, n1) = match read_var_int(page, offset) {
            Ok(p) => p,
            Err(e) => {
                return Err(e);
            },
        };
        let (row_id, n2) = match read_var_int(page, offset + n1) {
            Ok(p) => p,
            Err(e) => {
                return Err(e);
            },
        };
        let body_start = offset + n1 + n2;
        if payload_size > (page.len() - body_start) as u64 {
            return Err(DbError::OverflowUnsupported);
        }
        let count = payload_size as usize;
        let payload = copy_bytes(page, body_start, count);
        let cell = TableBTreeLeafCell { payload_size, row_id, payload, overflow_page: 0 };
        proof {
            let c = spec_table_leaf_cell(page@, offset as int).unwrap();
            assert(cell@.payload =~= c.payload);
        }
        Ok(cell)
    }
}

impl TableBTreeInteriorCell {
    /// Decodes the table-interior cell at byte offset `offset` of `page`.
    pub fn new(page: &[u8], offset: usize) -> (r: Result<TableBTreeInteriorCell, DbError>)
        ensures
            r == spec_table_interior_cell(page@, offset as int),
    {
        if page.len() < 4 || offset > page.len() - 4 {
            return Err(DbError::BoundsViolation);
        }
        let left_child_pointer = read_u32(page, offset);
        let (row_id, _n) = match read_var_int(page, offset + 4) {
            Ok(p) => p,
            Err(e) => {
                return Err(e);
            },
        };
        Ok(TableBTreeInteriorCell { left_child_pointer, row_id })
    }
}

impl IndexBTreeLeafCell {
    /// Decodes the index-leaf cell at byte offset `offset` of `page`.
    pub fn new(page: &[u8], offset: usize) -> (r: Result<IndexBTreeLeafCell, DbError>)
        ensures
            match spec_index_leaf_cell(page@, offset as int) {
                Ok(c) => r matches Ok(cell) && cell@ == c,
                Err(e) => r == Err::<IndexBTreeLeafCell, DbError>(e),
            },
    {
        let page_len = page.len();
        let (payload_size, n1) = match read_var_int(page, offset) {
            Ok(p) => p,
            Err(e) => {
                return Err(e);
            },
        };
        let body_start = offset + n1;
        if payload_size > (page.len() - body_start) as u64 {
            return Err(DbError::OverflowUnsupported);
        }
        let count = payload_size as usize;
        let payload = copy_bytes(page, body_start, count);
        let cell = IndexBTreeLeafCell { payload_size, payload, overflow_page: 0 };
        proof {
            let c = spec_index_leaf_cell(page@, offset as int).unwrap();
            assert(cell@.payload =~= c.payload);
        }
        Ok(cell)
    }
}

impl IndexBTreeInteriorCell {
    /// Decodes the index-interior cell at byte offset `offset` of `page`.
    pub fn new(page: &[u8], offset: usize) -> (r: Result<IndexBTreeInteriorCell, DbError>)
        ensures
            match spec_index_interior_cell(page@, offset as int) {
                Ok(c) => r matches Ok(cell) && cell@ == c,
                Err(e) => r == Err::<IndexBTreeInteriorCell, DbError>(e),
            },
    {
        let page_len = page.len();
        if page_len < 4 || offset > page_len - 4 {
            return Err(DbError::BoundsViolation);
        }
        let left_child_pointer = read_u32(page, offset);
        let (payload_size, n1) = match read_var_int(page, offset + 4) {
            Ok(p) => p,
            Err(e) => {
                return Err(e);
            },
        };
        let body_start = offset + 4 + n1;
        if payload_size > (page.len() - body_start) as u64 {
            return Err(DbError::OverflowUnsupported);
        }
        let count = payload_size as usize;
        let payload = copy_bytes(page, body_start, count);
        let cell = IndexBTreeInteriorCell {
            left_child_pointer,
            payload_size,
            payload,
            overflow_page: 0,
        };
        proof {
            let c = spec_index_interior_cell(page@, offset as int).unwrap();
            assert(cell@.payload =~= c.payload);
        }
        Ok(cell)
    }
}

// ---------------------------------------------------------------------------
// Pages
// ---------------------------------------------------------------------------

/// Mathematical view of a table-leaf page.
pub struct SpecTableLeafPage {
    pub raw_buf: Seq<u8>,
    pub header: BTreePageLeafHeader,
    pub cells: Seq<SpecTableLeafCell>,
}

/// Mathematical view of a table-interior page.
pub struct SpecTableInteriorPage {
    pub raw_buf: Seq<u8>,
    pub header: BTreePageInteriorHeader,
    pub cells: Seq<TableBTreeInteriorCell>,
}

/// Mathematical view of an index-leaf page.
pub struct SpecIndexLeafPage {
    pub raw_buf: Seq<u8>,
    pub header: BTreePageLeafHeader,
    pub cells: Seq<SpecIndexLeafCell>,
}

/// Mathematical view of an index-interior page.
pub struct SpecIndexInteriorPage {
    pub raw_buf: Seq<u8>,
    pub header: BTreePageInteriorHeader,
    pub cells: Seq<SpecIndexInteriorCell>,
}

/// Cell `i` of a table-leaf page, reached through entry `i` of the
/// cell-pointer array that starts at byte 8.
pub open spec fn spec_tl_cell_at(page: Seq<u8>, i: int) -> Result<SpecTableLeafCell, DbError> {
    if 8 + 2 * (i + 1) > page.len() {
        Err(DbError::BoundsViolation)
    } else {
        spec_table_leaf_cell(page, be_u16_at(page, 8 + 2 * i))
    }
}

/// Cell `i` of a table-interior page, reached through entry `i` of the
/// cell-pointer array that starts at byte 12.
pub open spec fn spec_ti_cell_at(page: Seq<u8>, i: int) -> Result<TableBTreeInteriorCell, DbError> {
    if 12 + 2 * (i + 1) > page.len() {
        Err(DbError::BoundsViolation)
    } else {
        spec_table_interior_cell(page, be_u16_at(page, 12 + 2 * i))
    }
}

/// Cell `i` of an index-leaf page, reached through entry `i` of the
/// cell-pointer array that starts at byte 8.
pub open spec fn spec_il_cell_at(page: Seq<u8>, i: int) -> Result<SpecIndexLeafCell, DbError> {
    if 8 + 2 * (i + 1) > page.len() {
        Err(DbError::BoundsViolation)
    } else {
        spec_index_leaf_cell(page, be_u16_at(page, 8 + 2 * i))
    }
}

/// Cell `i` of an index-interior page, reached through entry `i` of the
/// cell-pointer array that starts at byte 12.
pub open spec fn spec_ii_cell_at(page: Seq<u8>, i: int) -> Result<SpecIndexInteriorCell, DbError> {
    if 12 + 2 * (i + 1) > page.len() {
        Err(DbError::BoundsViolation)
    } else {
        spec_index_interior_cell(page, be_u16_at(page, 12 + 2 * i))
    }
}

/// The first `n` cells of a table-leaf page, or the first error met while
/// decoding them in cell-pointer order.
pub open spec fn spec_table_leaf_cells(page: Seq<u8>, n: int) -> Result<
    Seq<SpecTableLeafCell>,
    DbError,
>
    decreases n,
{
    if n <= 0 {
        Ok(Seq::empty())
    } else {
        match spec_table_leaf_cells(page, n - 1) {
            Err(e) => Err(e),
            Ok(s) => match spec_tl_cell_at(page, n - 1) {
                Err(e) => Err(e),
                Ok(c) => Ok(s.push(c)),
            },
        }
    }
}

/// The first `n` cells of a table-interior page, or the first error met.
pub open spec fn spec_table_interior_cells(page: Seq<u8>, n: int) -> Result<
    Seq<TableBTreeInteriorCell>,
    DbError,
>
    decreases n,
{
    if n <= 0 {
        Ok(Seq::empty())
    } else {
        match spec_table_interior_cells(page, n - 1) {
            Err(e) => Err(e),
            Ok(s) => match spec_ti_cell_at(page, n - 1) {
                Err(e) => Err(e),
                Ok(c) => Ok(s.push(c)),
            },
        }
    }
}

/// The first `n` cells of an index-leaf page, or the first error met.
pub open spec fn spec_index_leaf_cells(page: Seq<u8>, n: int) -> Result<
    Seq<SpecIndexLeafCell>,
    DbError,
>
    decreases n,
{
    if n <= 0 {
        Ok(Seq::empty())
    } else {
        match spec_index_leaf_cells(page, n - 1) {
            Err(e) => Err(e),
            Ok(s) => match spec_il_cell_at(page, n - 1) {
                Err(e) => Err(e),
                Ok(c) => Ok(s.push(c)),
            },
        }
    }
}

/// The first `n` cells of an index-interior page, or the first error met.
pub open spec fn spec_index_interior_cells(page: Seq<u8>, n: int) -> Result<
    Seq<SpecIndexInteriorCell>,
    DbError,
>
    decreases n,
{
    if n <= 0 {
        Ok(Seq::empty())
    } else {
        match spec_index_interior_cells(page, n - 1) {
            Err(e) => Err(e),
            Ok(s) => match spec_ii_cell_at(page, n - 1) {
                Err(e) => Err(e),
                Ok(c) => Ok(s.push(c)),
            },
        }
    }
}

/// Once cell `i` fails to decode, every longer prefix fails with that error.
proof fn lemma_tl_cells_err(page: Seq<u8>, i: int, n: int, e: DbError)
    requires
        0 <= i < n,
        spec_table_leaf_cells(page, i) is Ok,
        spec_tl_cell_at(page, i) == Err::<SpecTableLeafCell, DbError>(e),
    ensures
        spec_table_leaf_cells(page, n) == Err::<Seq<SpecTableLeafCell>, DbError>(e),
    decreases n,
{
    if n > i + 1 {
        lemma_tl_cells_err(page, i, n - 1, e);
    }
}

/// Once cell `i` fails to decode, every longer prefix fails with that error.
proof fn lemma_ti_cells_err(page: Seq<u8>, i: int, n: int, e: DbError)
    requires
        0 <= i < n,
        spec_table_interior_cells(page, i) is Ok,
        spec_ti_cell_at(page, i) == Err::<TableBTreeInteriorCell, DbError>(e),
    ensures
        spec_table_interior_cells(page, n) == Err::<Seq<TableBTreeInteriorCell>, DbError>(e),
    decreases n,
{
    if n > i + 1 {
        lemma_ti_cells_err(page, i, n - 1, e);
    }
}

/// Once cell `i` fails to decode, every longer prefix fails with that error.
proof fn lemma_il_cells_err(page: Seq<u8>, i: int, n: int, e: DbError)
    requires
        0 <= i < n,
        spec_index_leaf_cells(page, i) is Ok,
        spec_il_cell_at(page, i) == Err::<SpecIndexLeafCell, DbError>(e),
    ensures
        spec_index_leaf_cells(page, n) == Err::<Seq<SpecIndexLeafCell>, DbError>(e),
    decreases n,
{
    if n > i + 1 {
        lemma_il_cells_err(page, i, n - 1, e);
    }
}

/// Once cell `i` fails to decode, every longer prefix fails with that error.
proof fn lemma_ii_cells_err(page: Seq<u8>, i: int, n: int, e: DbError)
    requires
        0 <= i < n,
        spec_index_interior_cells(page, i) is Ok,
        spec_ii_cell_at(page, i) == Err::<SpecIndexInteriorCell, DbError>(e),
    ensures
        spec_index_interior_cells(page, n) == Err::<Seq<SpecIndexInteriorCell>, DbError>(e),
    decreases n,
{
    if n > i + 1 {
        lemma_ii_cells_err(page, i, n - 1, e);
    }
}

/// The table-leaf page laid down in `page`: an eight-byte header, then one
/// decoded cell for each entry of the cell-pointer array.
pub open spec fn spec_table_leaf_page(page: Seq<u8>) -> Result<SpecTableLeafPage, DbError> {
    if page.len() < 8 {
        Err(DbError::BoundsViolation)
    } else {
        let h = spec_leaf_header(page);
        match spec_table_leaf_cells(page, h.cell_count as int) {
            Err(e) => Err(e),
            Ok(cells) => Ok(SpecTableLeafPage { raw_buf: page, header: h, cells }),
        }
    }
}

/// The table-interior page laid down in `page`: a twelve-byte header, then one
/// decoded cell for each entry of the cell-pointer array.
pub open spec fn spec_table_interior_page(page: Seq<u8>) -> Result<SpecTableInteriorPage, DbError> {
    if page.len() < 12 {
        Err(DbError::BoundsViolation)
    } else {
        let h = spec_interior_header(page);
        match spec_table_interior_cells(page, h.cell_count as int) {
            Err(e) => Err(e),
            Ok(cells) => Ok(SpecTableInteriorPage { raw_buf: page, header: h, cells }),
        }
    }
}

/// The index-leaf page laid down in `page`.
pub open spec fn spec_index_leaf_page(page: Seq<u8>) -> Result<SpecIndexLeafPage, DbError> {
    if page.len() < 8 {
        Err(DbError::BoundsViolation)
    } else {
        let h = spec_leaf_header(page);
        match spec_index_leaf_cells(page, h.cell_count as int) {
            Err(e) => Err(e),
            Ok(cells) => Ok(SpecIndexLeafPage { raw_buf: page, header: h, cells }),
        }
    }
}

/// The index-interior page laid down in `page`.
pub open spec fn spec_index_interior_page(page: Seq<u8>) -> Result<
    SpecIndexInteriorPage,
    DbError,
> {
    if page.len() < 12 {
        Err(DbError::BoundsViolation)
    } else {
        let h = spec_interior_header(page);
        match spec_index_interior_cells(page, h.cell_count as int) {
            Err(e) => Err(e),
            Ok(cells) => Ok(SpecIndexInteriorPage { raw_buf: page, header: h, cells }),
        }
    }
}

/// A decoded table-leaf page: its header and its cells in pointer-array order.
pub struct TableBTreeLeafPage {
    /// The raw page bytes, kept as they were read.
    pub raw_buf: Vec<u8>,
    /// The eight-byte page header.
    pub header: BTreePageLeafHeader,
    /// The decoded cells, in cell-pointer-array order.
    pub cells: Vec<TableBTreeLeafCell>,
}

/// A decoded table-interior page: its header and its routing cells.
pub struct TableBTreeInteriorPage {
    /// The raw page bytes, kept as they were read.
    pub raw_buf: Vec<u8>,
    /// The twelve-byte page header.
    pub header: BTreePageInteriorHeader,
    /// The decoded cells, in cell-pointer-array order.
    pub cells: Vec<TableBTreeInteriorCell>,
}

/// A decoded index-leaf page: its header and its cells.
pub struct IndexBTreeLeafPage {
    /// The raw page bytes, kept as they were read.
    pub raw_buf: Vec<u8>,
    /// The eight-byte page header.
    pub header: BTreePageLeafHeader,
    /// The decoded cells, in cell-pointer-array order.
    pub cells: Vec<IndexBTreeLeafCell>,
}

/// A decoded index-interior page: its header and its routing cells.
pub struct IndexBTreeInteriorPage {
    /// The raw page bytes, kept as they were read.
    pub raw_buf: Vec<u8>,
    /// The twelve-byte page header.
    pub header: BTreePageInteriorHeader,
    /// The decoded cells, in cell-pointer-array order.
    pub cells: Vec<IndexBTreeInteriorCell>,
}

impl View for TableBTreeLeafPage {
    type V = SpecTableLeafPage;

    open spec fn view(&self) -> SpecTableLeafPage {
        SpecTableLeafPage {
            raw_buf: self.raw_buf@,
            header: self.header,
            cells: self.cells@.map_values(|c: TableBTreeLeafCell| c@),
        }
    }
}

impl View for TableBTreeInteriorPage {
    type V = SpecTableInteriorPage;

    open spec fn view(&self) -> SpecTableInteriorPage {
        SpecTableInteriorPage { raw_buf: self.raw_buf@, header: self.header, cells: self.cells@ }
    }
}

impl View for IndexBTreeLeafPage {
    type V = SpecIndexLeafPage;

    open spec fn view(&self) -> SpecIndexLeafPage {
        SpecIndexLeafPage {
            raw_buf: self.raw_buf@,
            header: self.header,
            cells: self.cells@.map_values(|c: IndexBTreeLeafCell| c@),
        }
    }
}

impl View for IndexBTreeInteriorPage {
    type V = SpecIndexInteriorPage;

    open spec fn view(&self) -> SpecIndexInteriorPage {
        SpecIndexInteriorPage {
            raw_buf: self.raw_buf@,
            header: self.header,
            cells: self.cells@.map_values(|c: IndexBTreeInteriorCell| c@),
        }
    }
}

impl TableBTreeLeafPage {
    /// Decodes a whole table-leaf page eagerly: header, cell-pointer array,
    /// and every cell.
    pub fn new(page: &[u8]) -> (r: Result<TableBTreeLeafPage, DbError>)
        ensures
            match spec_table_leaf_page(page@) {
                Ok(p) => r matches Ok(pp) && pp@ == p,
                Err(e) => r matches Err(e2) && e2 == e,
            },
    {
        let page_len = page.len();
        if page_len < 8 {
            return Err(DbError::BoundsViolation);
        }
        let raw_buf = copy_bytes(page, 0, page_len);
        let header = BTreePageLeafHeader::new(page);
        let cell_count = header.cell_count as usize;
        let mut cells: Vec<TableBTreeLeafCell> = Vec::new();
        proof {
            assert(raw_buf@ =~= page@);
            assert(cells@.map_values(|c: TableBTreeLeafCell| c@) =~= Seq::<SpecTableLeafCell>::empty());
        }
        let mut i: usize = 0;
        while i < cell_count
            invariant
                0 <= i <= cell_count,
                page_len == page@.len(),
                page_len >= 8,
                header == spec_leaf_header(page@),
                cell_count == header.cell_count,
                spec_table_leaf_cells(page@, i as int) == Ok::<Seq<SpecTableLeafCell>, DbError>(
                    cells@.map_values(|c: TableBTreeLeafCell| c@),
                ),
            decreases cell_count - i,
        {
            if 8 + 2 * i + 2 > page_len {
                proof {
                    lemma_tl_cells_err(page@, i as int, cell_count as int, DbError::BoundsViolation);
                }
                return Err(DbError::BoundsViolation);
            }
            let offset = read_u16(page, 8 + 2 * i);
            let cell = match TableBTreeLeafCell::new(page, offset as usize) {
                Ok(c) => c,
                Err(e) => {
                    proof {
                        lemma_tl_cells_err(page@, i as int, cell_count as int, e);
                    }
                    return Err(e);
                },
            };
            let ghost prev = cells@;
            cells.push(cell);
            proof {
                let f = |c: TableBTreeLeafCell| c@;
                assert(cells@.map_values(f) =~= prev.map_values(f).push(cell@));
            }
            i = i + 1;
        }
        Ok(TableBTreeLeafPage { raw_buf, header, cells })
    }
}

impl TableBTreeInteriorPage {
    /// Decodes a whole table-interior page eagerly: header, cell-pointer
    /// array, and every cell.
    pub fn new(page: &[u8]) -> (r: Result<TableBTreeInteriorPage, DbError>)
        ensures
            match spec_table_interior_page(page@) {
                Ok(p) => r matches Ok(pp) && pp@ == p,
                Err(e) => r matches Err(e2) && e2 == e,
            },
    {
        let page_len = page.len();
        if page_len < 12 {
            return Err(DbError::BoundsViolation);
        }
        let raw_buf = copy_bytes(page, 0, page_len);
        let header = BTreePageInteriorHeader::new(page);
        let cell_count = header.cell_count as usize;
        let mut cells: Vec<TableBTreeInteriorCell> = Vec::new();
        proof {
            assert(raw_buf@ =~= page@);
            assert(cells@ =~= Seq::<TableBTreeInteriorCell>::empty());
        }
        let mut i: usize = 0;
        while i < cell_count
            invariant
                0 <= i <= cell_count,
                page_len == page@.len(),
                page_len >= 12,
                header == spec_interior_header(page@),
                cell_count == header.cell_count,
                spec_table_interior_cells(page@, i as int) == Ok::<
                    Seq<TableBTreeInteriorCell>,
                    DbError,
                >(cells@),
            decreases cell_count - i,
        {
            if 12 + 2 * i + 2 > page_len {
                proof {
                    lemma_ti_cells_err(page@, i as int, cell_count as int, DbError::BoundsViolation);
                }
                return Err(DbError::BoundsViolation);
            }
            let offset = read_u16(page, 12 + 2 * i);
            let cell = match TableBTreeInteriorCell::new(page, offset as usize) {
                Ok(c) => c,
                Err(e) => {
                    proof {
                        lemma_ti_cells_err(page@, i as int, cell_count as int, e);
                    }
                    return Err(e);
                },
            };
            cells.push(cell);
            i = i + 1;
        }
        Ok(TableBTreeInteriorPage { raw_buf, header, cells })
    }
}

impl IndexBTreeLeafPage {
    /// Decodes a whole index-leaf page eagerly: header, cell-pointer array,
    /// and every cell.
    pub fn new(page: &[u8]) -> (r: Result<IndexBTreeLeafPage, DbError>)
        ensures
            match spec_index_leaf_page(page@) {
                Ok(p) => r matches Ok(pp) && pp@ == p,
                Err(e) => r matches Err(e2) && e2 == e,
            },
    {
        let page_len = page.len();
        if page_len < 8 {
            return Err(DbError::BoundsViolation);
        }
        let raw_buf = copy_bytes(page, 0, page_len);
        let header = BTreePageLeafHeader::new(page);
        let cell_count = header.cell_count as usize;
        let mut cells: Vec<IndexBTreeLeafCell> = Vec::new();
        proof {
            assert(raw_buf@ =~= page@);
            assert(cells@.map_values(|c: IndexBTreeLeafCell| c@) =~= Seq::<SpecIndexLeafCell>::empty());
        }
        let mut i: usize = 0;
        while i < cell_count
            invariant
                0 <= i <= cell_count,
                page_len == page@.len(),
                page_len >= 8,
                header == spec_leaf_header(page@),
                cell_count == header.cell_count,
                spec_index_leaf_cells(page@, i as int) == Ok::<Seq<SpecIndexLeafCell>, DbError>(
                    cells@.map_values(|c: IndexBTreeLeafCell| c@),
                ),
            decreases cell_count - i,
        {
            if 8 + 2 * i + 2 > page_len {
                proof {
                    lemma_il_cells_err(page@, i as int, cell_count as int, DbError::BoundsViolation);
                }
                return Err(DbError::BoundsViolation);
            }
            let offset = read_u16(page, 8 + 2 * i);
            let cell = match IndexBTreeLeafCell::new(page, offset as usize) {
                Ok(c) => c,
                Err(e) => {
                    proof {
                        lemma_il_cells_err(page@, i as int, cell_count as int, e);
                    }
                    return Err(e);
                },
            };
            let ghost prev = cells@;
            cells.push(cell);
            proof {
                let f = |c: IndexBTreeLeafCell| c@;
                assert(cells@.map_values(f) =~= prev.map_values(f).push(cell@));
            }
            i = i + 1;
        }
        Ok(IndexBTreeLeafPage { raw_buf, header, cells })
    }
}

impl IndexBTreeInteriorPage {
    /// Decodes a whole index-interior page eagerly: header, cell-pointer
    /// array, and every cell.
    pub fn new(page: &[u8]) -> (r: Result<IndexBTreeInteriorPage, DbError>)
        ensures
            match spec_index_interior_page(page@) {
                Ok(p) => r matches Ok(pp) && pp@ == p,
                Err(e) => r matches Err(e2) && e2 == e,
            },
    {
        let page_len = page.len();
        if page_len < 12 {
            return Err(DbError::BoundsViolation);
        }
        let raw_buf = copy_bytes(page, 0, page_len);
        let header = BTreePageInteriorHeader::new(page);
        let cell_count = header.cell_count as usize;
        let mut cells: Vec<IndexBTreeInteriorCell> = Vec::new();
        proof {
            assert(raw_buf@ =~= page@);
            assert(cells@.map_values(|c: IndexBTreeInteriorCell| c@) =~= Seq::<SpecIndexInteriorCell>::empty());
        }
        let mut i: usize = 0;
        while i < cell_count
            invariant
                0 <= i <= cell_count,
                page_len == page@.len(),
                page_len >= 12,
                header == spec_interior_header(page@),
                cell_count == header.cell_count,
                spec_index_interior_cells(page@, i as int) == Ok::<
                    Seq<SpecIndexInteriorCell>,
                    DbError,
                >(cells@.map_values(|c: IndexBTreeInteriorCell| c@)),
            decreases cell_count - i,
        {
            if 12 + 2 * i + 2 > page_len {
                proof {
                    lemma_ii_cells_err(page@, i as int, cell_count as int, DbError::BoundsViolation);
                }
                return Err(DbError::BoundsViolation);
            }
            let offset = read_u16(page, 12 + 2 * i);
            let cell = match IndexBTreeInteriorCell::new(page, offset as usize) {
                Ok(c) => c,
                Err(e) => {
                    proof {
                        lemma_ii_cells_err(page@, i as int, cell_count as int, e);
                    }
                    return Err(e);
                },
            };
            let ghost prev = cells@;
            cells.push(cell);
            proof {
                let f = |c: IndexBTreeInteriorCell| c@;
                assert(cells@.map_values(f) =~= prev.map_values(f).push(cell@));
            }
            i = i + 1;
        }
        Ok(IndexBTreeInteriorPage { raw_buf, header, cells })
    }
}

// ---------------------------------------------------------------------------
// Page dispatch
// ---------------------------------------------------------------------------

/// A decoded page of any of the four B-tree page kinds.
pub enum Page {
    TableBTreeLeafPage(TableBTreeLeafPage),
    TableBTreeInteriorPage(TableBTreeInteriorPage),
    IndexBTreeLeafPage(IndexBTreeLeafPage),
    IndexBTreeInteriorPage(IndexBTreeInteriorPage),
}

/// Mathematical view of a decoded page.
pub enum SpecPage {
    TableLeaf(SpecTableLeafPage),
    TableInterior(SpecTableInteriorPage),
    IndexLeaf(SpecIndexLeafPage),
    IndexInterior(SpecIndexInteriorPage),
}

impl View for Page {
    type V = SpecPage;

    open spec fn view(&self) -> SpecPage {
        match self {
            Page::TableBTreeLeafPage(p) => SpecPage::TableLeaf(p@),
            Page::TableBTreeInteriorPage(p) => SpecPage::TableInterior(p@),
            Page::IndexBTreeLeafPage(p) => SpecPage::IndexLeaf(p@),
            Page::IndexBTreeInteriorPage(p) => SpecPage::IndexInterior(p@),
        }
    }
}

/// The page laid down in `b`, dispatched on the leading type-flag byte:
/// 0x02 index interior, 0x05 table interior, 0x0a index leaf, 0x0d table leaf.
/// Any other flag is an unsupported page type.
pub open spec fn spec_decode_page(b: Seq<u8>) -> Result<SpecPage, DbError> {
    if b.len() < 1 {
        Err(DbError::BoundsViolation)
    } else if b[0] == 0x02 {
        match spec_index_interior_page(b) {
            Err(e) => Err(e),
            Ok(p) => Ok(SpecPage::IndexInterior(p)),
        }
    } else if b[0] == 0x05 {
        match spec_table_interior_page(b) {
            Err(e) => Err(e),
            Ok(p) => Ok(SpecPage::TableInterior(p)),
        }
    } else if b[0] == 0x0a {
        match spec_index_leaf_page(b) {
            Err(e) => Err(e),
            Ok(p) => Ok(SpecPage::IndexLeaf(p)),
        }
    } else if b[0] == 0x0d {
        match spec_table_leaf_page(b) {
            Err(e) => Err(e),
            Ok(p) => Ok(SpecPage::TableLeaf(p)),
        }
    } else {
        Err(DbError::UnsupportedPageType)
    }
}

/// Decodes one page's bytes into the page kind named by its type-flag byte.
pub fn decode_page(page: &[u8]) -> (r: Result<Page, DbError>)
    ensures
        match spec_decode_page(page@) {
            Ok(p) => r matches Ok(pp) && pp@ == p,
            Err(e) => r matches Err(e2) && e2 == e,
        },
{
    if page.len() < 1 {
        return Err(DbError::BoundsViolation);
    }
    let flag = page[0];
    if flag == 0x02 {
        match IndexBTreeInteriorPage::new(page) {
            Ok(p) => Ok(Page::IndexBTreeInteriorPage(p)),
            Err(e) => Err(e),
        }
    } else if flag == 0x05 {
        match TableBTreeInteriorPage::new(page) {
            Ok(p) => Ok(Page::TableBTreeInteriorPage(p)),
            Err(e) => Err(e),
        }
    } else if flag == 0x0a {
        match IndexBTreeLeafPage::new(page) {
            Ok(p) => Ok(Page::IndexBTreeLeafPage(p)),
            Err(e) => Err(e),
        }
    } else if flag == 0x0d {
        match TableBTreeLeafPage::new(page) {
            Ok(p) => Ok(Page::TableBTreeLeafPage(p)),
            Err(e) => Err(e),
        }
    } else {
        Err(DbError::UnsupportedPageType)
    }
}

// ---------------------------------------------------------------------------
// The first page
// ---------------------------------------------------------------------------
//
// Page 1 is special: its first 100 bytes are the file header, so a buffer
// read from byte 100 on holds the B-tree content, while the cell-pointer
// array still stores offsets relative to the start of the page. Decoding the
// first page therefore subtracts the header size from every cell pointer.

/// Cell `i` of the first page: the stored pointer is page-relative, the
/// buffer starts after the 100-byte file header.
pub open spec fn spec_first_page_cell_at(page: Seq<u8>, i: int) -> Result<
    SpecTableLeafCell,
    DbError,
> {
    if 8 + 2 * (i + 1) > page.len() {
        Err(DbError::BoundsViolation)
    } else if be_u16_at(page, 8 + 2 * i) < HEADER_SIZE {
        Err(DbError::BoundsViolation)
    } else {
        spec_table_leaf_cell(page, be_u16_at(page, 8 + 2 * i) - HEADER_SIZE)
    }
}

/// The first `n` cells of the first page, or the first error met.
pub open spec fn spec_first_page_cells(page: Seq<u8>, n: int) -> Result<
    Seq<SpecTableLeafCell>,
    DbError,
>
    decreases n,
{
    if n <= 0 {
        Ok(Seq::empty())
    } else {
        match spec_first_page_cells(page, n - 1) {
            Err(e) => Err(e),
            Ok(s) => match spec_first_page_cell_at(page, n - 1) {
                Err(e) => Err(e),
                Ok(c) => Ok(s.push(c)),
            },
        }
    }
}

/// The table-leaf content of the first page, decoded from the bytes that
/// follow the file header.
pub open spec fn spec_first_page(page: Seq<u8>) -> Result<SpecTableLeafPage, DbError> {
    if page.len() < 8 {
        Err(DbError::BoundsViolation)
    } else {
        let h = spec_leaf_header(page);
        match spec_first_page_cells(page, h.cell_count as int) {
            Err(e) => Err(e),
            Ok(cells) => Ok(SpecTableLeafPage { raw_buf: page, header: h, cells }),
        }
    }
}

/// Once cell `i` fails to decode, every longer prefix fails with that error.
proof fn lemma_fp_cells_err(page: Seq<u8>, i: int, n: int, e: DbError)
    requires
        0 <= i < n,
        spec_first_page_cells(page, i) is Ok,
        spec_first_page_cell_at(page, i) == Err::<SpecTableLeafCell, DbError>(e),
    ensures
        spec_first_page_cells(page, n) == Err::<Seq<SpecTableLeafCell>, DbError>(e),
    decreases n,
{
    if n > i + 1 {
        lemma_fp_cells_err(page, i, n - 1, e);
    }
}

/// Decodes the table-leaf content of the first page. `page` holds the bytes
/// of page 1 from byte 100 on: the B-tree page header sits at its start, and
/// each cell pointer is adjusted by the file header's size.
pub fn read_first_page(page: &[u8]) -> (r: Result<TableBTreeLeafPage, DbError>)
    ensures
        match spec_first_page(page@) {
            Ok(p) => r matches Ok(pp) && pp@ == p,
            Err(e) => r matches Err(e2) && e2 == e,
        },
{
    let page_len = page.len();
    if page_len < 8 {
        return Err(DbError::BoundsViolation);
    }
    let raw_buf = copy_bytes(page, 0, page_len);
    let header = BTreePageLeafHeader::new(page);
    let cell_count = header.cell_count as usize;
    let mut cells: Vec<TableBTreeLeafCell> = Vec::new();
    proof {
        assert(raw_buf@ =~= page@);
        assert(cells@.map_values(|c: TableBTreeLeafCell| c@) =~= Seq::<
            SpecTableLeafCell,
        >::empty());
    }
    let mut i: usize = 0;
    while i < cell_count
        invariant
            0 <= i <= cell_count,
            page_len == page@.len(),
            page_len >= 8,
            header == spec_leaf_header(page@),
            cell_count == header.cell_count,
            spec_first_page_cells(page@, i as int) == Ok::<Seq<SpecTableLeafCell>, DbError>(
                cells@.map_values(|c: TableBTreeLeafCell| c@),
            ),
        decreases cell_count - i,
    {
        if 8 + 2 * i + 2 > page_len {
            proof {
                lemma_fp_cells_err(page@, i as int, cell_count as int, DbError::BoundsViolation);
            }
            return Err(DbError::BoundsViolation);
        }
        let offset = read_u16(page, 8 + 2 * i);
        if (offset as usize) < HEADER_SIZE {
            proof {
                lemma_fp_cells_err(page@, i as int, cell_count as int, DbError::BoundsViolation);
            }
            return Err(DbError::BoundsViolation);
        }
        let cell = match TableBTreeLeafCell::new(page, offset as usize - HEADER_SIZE) {
            Ok(c) => c,
            Err(e) => {
                proof {
                    lemma_fp_cells_err(page@, i as int, cell_count as int, e);
                }
                return Err(e);
            },
        };
        let ghost prev = cells@;
        cells.push(cell);
        proof {
            let f = |c: TableBTreeLeafCell| c@;
            assert(cells@.map_values(f) =~= prev.map_values(f).push(cell@));
        }
        i = i + 1;
    }
    Ok(TableBTreeLeafPage { raw_buf, header, cells })
}

} // verus!
