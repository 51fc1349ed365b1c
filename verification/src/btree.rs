use crate::errors::DbError;
use crate::page::{
    decode_page, spec_decode_page, Page, SpecIndexInteriorCell, SpecIndexLeafCell, SpecPage,
    SpecTableLeafCell, TableBTreeInteriorCell, TableBTreeLeafCell,
};
use crate::record::{
    force_cast_column_to_u64, spec_col_eq, spec_col_cmp, spec_force_u64, spec_record, Column,
    ColumnOrder, Record, SpecColumn,
};
use vstd::prelude::*;

verus! {

/// The fixed page size this engine reads with: every page of the file image
/// is `PAGE_SIZE` bytes.
pub const PAGE_SIZE: usize = 4096;

/// The mathematical view of a vector of table-leaf cells.
pub open spec fn cells_view(s: Seq<TableBTreeLeafCell>) -> Seq<SpecTableLeafCell> {
    s.map_values(|c: TableBTreeLeafCell| c@)
}

// ---------------------------------------------------------------------------
// Page store
// ---------------------------------------------------------------------------

/// Whether `pno` names a whole page of the file image. Page numbers are
/// 1-based: page 0 is invalid, and the page must lie inside the image.
pub open spec fn spec_page_ok(file: Seq<u8>, pno: int) -> bool {
    1 <= pno && pno * PAGE_SIZE <= file.len()
}

/// The bytes of page `pno`: page `n` starts at byte `(n - 1) * PAGE_SIZE`.
pub open spec fn spec_page_bytes(file: Seq<u8>, pno: int) -> Seq<u8> {
    file.subrange((pno - 1) * PAGE_SIZE, pno * PAGE_SIZE)
}

/// The decoded page `pno` of the file image, or the error met reading or
/// decoding it.
pub open spec fn spec_read_page(file: Seq<u8>, pno: int) -> Result<SpecPage, DbError> {
    if !spec_page_ok(file, pno) {
        Err(DbError::BoundsViolation)
    } else {
        spec_decode_page(spec_page_bytes(file, pno))
    }
}

/// The traversal depth budget for a file image: one more than its page count.
/// No acyclic page structure can be deeper, so only a cyclic (corrupt) file
/// ever exhausts it.
pub open spec fn scan_fuel(file: Seq<u8>) -> nat {
    (file.len() as int / PAGE_SIZE as int + 1) as nat
}

/// Reads page `page` out of the file image and decodes it.
pub fn read_page(file: &[u8], page: usize) -> (r: Result<Page, DbError>)
    ensures
        match spec_read_page(file@, page as int) {
            Ok(p) => r matches Ok(pp) && pp@ == p,
            Err(e) => r matches Err(e2) && e2 == e,
        },
{
    let file_len = file.len();
    if page == 0 || page > file_len / PAGE_SIZE {
        proof {
            if page >= 1 {
                assert(page * PAGE_SIZE > file_len) by (nonlinear_arith)
                    requires
                        page > file_len / PAGE_SIZE,
                        file_len / PAGE_SIZE * PAGE_SIZE + file_len % PAGE_SIZE == file_len,
                        0 <= file_len % PAGE_SIZE < PAGE_SIZE,
                ;
            }
        }
        return Err(DbError::BoundsViolation);
    }
    proof {
        assert(page * PAGE_SIZE <= file_len) by (nonlinear_arith)
            requires
                1 <= page <= file_len / PAGE_SIZE,
                file_len / PAGE_SIZE * PAGE_SIZE + file_len % PAGE_SIZE == file_len,
                0 <= file_len % PAGE_SIZE,
        ;
    }
    let start = (page - 1) * PAGE_SIZE;
    let pg = &file[start..start + PAGE_SIZE];
    proof {
        assert(pg@ =~= spec_page_bytes(file@, page as int));
    }
    decode_page(pg)
}

// ---------------------------------------------------------------------------
// Full table scan
// ---------------------------------------------------------------------------

/// The rows of the table B-tree rooted at page `pno`, in traversal order: on
/// a leaf its cells, on an interior page the rows under each cell's left
/// child in order, then the rows under the rightmost child. A page of an
/// index kind is a `TypeMismatch`, and an exhausted depth budget means the
/// page structure is cyclic.
pub open spec fn spec_scan(file: Seq<u8>, pno: int, fuel: nat) -> Result<
    Seq<SpecTableLeafCell>,
    DbError,
>
    decreases fuel, 0int,
{
    if fuel == 0 {
        Err(DbError::DepthExceeded)
    } else {
        match spec_read_page(file, pno) {
            Err(e) => Err(e),
            Ok(SpecPage::TableLeaf(p)) => Ok(p.cells),
            Ok(SpecPage::TableInterior(p)) => match spec_scan_children(
                file,
                p.cells,
                p.cells.len() as int,
                (fuel - 1) as nat,
            ) {
                Err(e) => Err(e),
                Ok(s) => match spec_scan(
                    file,
                    p.header.right_most_pointer as int,
                    (fuel - 1) as nat,
                ) {
                    Err(e) => Err(e),
                    Ok(t) => Ok(s + t),
                },
            },
            Ok(_) => Err(DbError::TypeMismatch),
        }
    }
}

/// The rows under the first `n` cells of an interior page, concatenated in
/// cell order, or the first error met.
pub open spec fn spec_scan_children(
    file: Seq<u8>,
    cells: Seq<TableBTreeInteriorCell>,
    n: int,
    fuel: nat,
) -> Result<Seq<SpecTableLeafCell>, DbError>
    decreases fuel, n,
{
    if n <= 0 {
        Ok(Seq::empty())
    } else {
        match spec_scan_children(file, cells, n - 1, fuel) {
            Err(e) => Err(e),
            Ok(s) => match spec_scan(file, cells[n - 1].left_child_pointer as int, fuel) {
                Err(e) => Err(e),
                Ok(t) => Ok(s + t),
            },
        }
    }
}

/// Once the subtree under cell `i` fails, the whole row collection fails with
/// that error.
proof fn lemma_scan_children_err(
    file: Seq<u8>,
    cells: Seq<TableBTreeInteriorCell>,
    i: int,
    n: int,
    fuel: nat,
    e: DbError,
)
    requires
        0 <= i < n,
        spec_scan_children(file, cells, i, fuel) is Ok,
        spec_scan(file, cells[i].left_child_pointer as int, fuel) == Err::<
            Seq<SpecTableLeafCell>,
            DbError,
        >(e),
    ensures
        spec_scan_children(file, cells, n, fuel) == Err::<Seq<SpecTableLeafCell>, DbError>(e),
    decreases n,
{
    if n > i + 1 {
        lemma_scan_children_err(file, cells, i, n - 1, fuel, e);
    }
}

/// Collects the rows of the subtree rooted at `page_no` into `out`.
fn read_table_rec(file: &[u8], page_no: u32, out: &mut Vec<TableBTreeLeafCell>, fuel: usize) -> (r:
    Result<(), DbError>)
    ensures
        match spec_scan(file@, page_no as int, fuel as nat) {
            Ok(s) => r is Ok && cells_view(final(out)@) == cells_view(old(out)@) + s,
            Err(e) => r matches Err(e2) && e2 == e,
        },
    decreases fuel,
{
    if fuel == 0 {
        return Err(DbError::DepthExceeded);
    }
    let page = match read_page(file, page_no as usize) {
        Ok(p) => p,
        Err(e) => {
            return Err(e);
        },
    };
    match page {
        Page::TableBTreeLeafPage(p) => {
            let ghost rows = p@.cells;
            let ghost out0 = out@;
            let mut pcells = p.cells;
            out.append(&mut pcells);
            proof {
                assert(cells_view(out@) =~= cells_view(out0) + rows);
            }
            Ok(())
        },
        Page::TableBTreeInteriorPage(p) => {
            let ghost cellsv = p.cells@;
            let ghost out0 = out@;
            let cell_count = p.cells.len();
            let mut i: usize = 0;
            proof {
                assert(cells_view(out@) =~= cells_view(out0) + Seq::<SpecTableLeafCell>::empty());
            }
            while i < cell_count
                invariant
                    0 <= i <= cell_count,
                    cell_count == cellsv.len(),
                    cellsv == p.cells@,
                    1 <= fuel,
                    spec_read_page(file@, page_no as int) == Ok::<SpecPage, DbError>(
                        SpecPage::TableInterior(p@),
                    ),
                    p@.cells == cellsv,
                    spec_scan_children(file@, cellsv, i as int, (fuel - 1) as nat) matches Ok(s)
                        && cells_view(out@) == cells_view(out0) + s,
                decreases cell_count - i,
            {
                let child = p.cells[i].left_child_pointer;
                match read_table_rec(file, child, out, fuel - 1) {
                    Ok(()) => {},
                    Err(e) => {
                        proof {
                            lemma_scan_children_err(
                                file@,
                                cellsv,
                                i as int,
                                cellsv.len() as int,
                                (fuel - 1) as nat,
                                e,
                            );
                        }
                        return Err(e);
                    },
                }
                proof {
                    let s = spec_scan_children(file@, cellsv, i as int, (fuel - 1) as nat)->Ok_0;
                    let t = spec_scan(file@, cellsv[i as int].left_child_pointer as int, (fuel
                        - 1) as nat)->Ok_0;
                    assert(cells_view(out@) =~= cells_view(out0) + (s + t));
                }
                i = i + 1;
            }
            match read_table_rec(file, p.header.right_most_pointer, out, fuel - 1) {
                Ok(()) => {
                    proof {
                        let s = spec_scan_children(
                            file@,
                            cellsv,
                            cellsv.len() as int,
                            (fuel - 1) as nat,
                        )->Ok_0;
                        let t = spec_scan(
                            file@,
                            p.header.right_most_pointer as int,
                            (fuel - 1) as nat,
                        )->Ok_0;
                        assert(cells_view(out@) =~= cells_view(out0) + (s + t));
                    }
                    Ok(())
                },
                Err(e) => Err(e),
            }
        },
        _ => Err(DbError::TypeMismatch),
    }
}

/// Streams every row of the table B-tree rooted at `root_page` into `cells`,
/// in ascending row-id order for a well-formed tree. On an error, `cells` is
/// left as it was.
pub fn read_table(file: &[u8], root_page: u32, cells: &mut Vec<TableBTreeLeafCell>) -> (r: Result<
    (),
    DbError,
>)
    ensures
        match spec_scan(file@, root_page as int, scan_fuel(file@)) {
            Ok(s) => r is Ok && cells_view(final(cells)@) == cells_view(old(cells)@) + s,
            Err(e) => r matches Err(e2) && e2 == e && final(cells)@ == old(cells)@,
        },
{
    let fuel = file.len() / PAGE_SIZE + 1;
    let mut tmp: Vec<TableBTreeLeafCell> = Vec::new();
    match read_table_rec(file, root_page, &mut tmp, fuel) {
        Ok(()) => {
            let ghost pre = cells@;
            let ghost tmpv = tmp@;
            cells.append(&mut tmp);
            proof {
                assert(Seq::<SpecTableLeafCell>::empty() + spec_scan(
                    file@,
                    root_page as int,
                    scan_fuel(file@),
                )->Ok_0 =~= spec_scan(file@, root_page as int, scan_fuel(file@))->Ok_0);
                assert(cells_view(cells@) =~= cells_view(pre) + cells_view(tmpv));
            }
            Ok(())
        },
        Err(e) => Err(e),
    }
}

// ---------------------------------------------------------------------------
// Point lookup by primary key
// ---------------------------------------------------------------------------

/// The first cell with row id `key` among `cells`, searching from index `i`.
pub open spec fn spec_find_in_leaf(cells: Seq<SpecTableLeafCell>, key: u64, i: int) -> Option<
    SpecTableLeafCell,
>
    decreases cells.len() - i,
{
    if i < 0 || i >= cells.len() {
        None
    } else if cells[i].row_id == key {
        Some(cells[i])
    } else {
        spec_find_in_leaf(cells, key, i + 1)
    }
}

/// The routing rule of an interior page: descend into the left child of the
/// first cell, at or after index `i`, whose routing row id is at least `key`;
/// past the last cell, descend into the rightmost child.
pub open spec fn spec_find_route(
    file: Seq<u8>,
    cells: Seq<TableBTreeInteriorCell>,
    right_most: int,
    key: u64,
    i: int,
    fuel: nat,
) -> Result<Option<SpecTableLeafCell>, DbError>
    decreases fuel, (if cells.len() - i > 0 {
        cells.len() - i + 1
    } else {
        1
    }),
{
    if i < 0 || i >= cells.len() {
        spec_find(file, right_most, key, fuel)
    } else if key <= cells[i].row_id {
        spec_find(file, cells[i].left_child_pointer as int, key, fuel)
    } else {
        spec_find_route(file, cells, right_most, key, i + 1, fuel)
    }
}

/// The point lookup: the cell with row id `key` in the table B-tree rooted at
/// page `pno`, or `None` when no row has that id.
pub open spec fn spec_find(file: Seq<u8>, pno: int, key: u64, fuel: nat) -> Result<
    Option<SpecTableLeafCell>,
    DbError,
>
    decreases fuel, 0int,
{
    if fuel == 0 {
        Err(DbError::DepthExceeded)
    } else {
        match spec_read_page(file, pno) {
            Err(e) => Err(e),
            Ok(SpecPage::TableLeaf(p)) => Ok(spec_find_in_leaf(p.cells, key, 0)),
            Ok(SpecPage::TableInterior(p)) => spec_find_route(
                file,
                p.cells,
                p.header.right_most_pointer as int,
                key,
                0,
                (fuel - 1) as nat,
            ),
            Ok(_) => Err(DbError::TypeMismatch),
        }
    }
}

/// Point lookup on the subtree rooted at `page_no`.
fn find_rec(file: &[u8], page_no: u32, key: u64, fuel: usize) -> (r: Result<
    Option<TableBTreeLeafCell>,
    DbError,
>)
    ensures
        match spec_find(file@, page_no as int, key, fuel as nat) {
            Ok(None) => r matches Ok(o) && o is None,
            Ok(Some(c)) => r matches Ok(o) && (o matches Some(cell) && cell@ == c),
            Err(e) => r matches Err(e2) && e2 == e,
        },
    decreases fuel,
{
    if fuel == 0 {
        return Err(DbError::DepthExceeded);
    }
    let page = match read_page(file, page_no as usize) {
        Ok(p) => p,
        Err(e) => {
            return Err(e);
        },
    };
    match page {
        Page::TableBTreeLeafPage(p) => {
            let ghost pv = p@;
            let ghost cellsv = p@.cells;
            let mut cells = p.cells;
            let cell_count = cells.len();
            let mut i: usize = 0;
            while i < cell_count
                invariant
                    0 <= i <= cell_count,
                    cell_count == cellsv.len(),
                    1 <= fuel,
                    spec_read_page(file@, page_no as int) == Ok::<SpecPage, DbError>(
                        SpecPage::TableLeaf(pv),
                    ),
                    pv.cells == cellsv,
                    cellsv == cells_view(cells@),
                    spec_find_in_leaf(cellsv, key, 0) == spec_find_in_leaf(cellsv, key, i as int),
                decreases cell_count - i,
            {
                if cells[i].row_id == key {
                    proof {
                        assert(cellsv[i as int] == cells@[i as int]@);
                    }
                    let cell = cells.remove(i);
                    return Ok(Some(cell));
                }
                proof {
                    assert(cellsv[i as int] == cells@[i as int]@);
                }
                i = i + 1;
            }
            Ok(None)
        },
        Page::TableBTreeInteriorPage(p) => {
            let ghost cellsv = p.cells@;
            let ghost rm = p.header.right_most_pointer as int;
            let cell_count = p.cells.len();
            let mut i: usize = 0;
            while i < cell_count
                invariant
                    0 <= i <= cell_count,
                    cell_count == cellsv.len(),
                    cellsv == p.cells@,
                    1 <= fuel,
                    spec_read_page(file@, page_no as int) == Ok::<SpecPage, DbError>(
                        SpecPage::TableInterior(p@),
                    ),
                    p@.cells == cellsv,
                    rm == p.header.right_most_pointer as int,
                    spec_find_route(file@, cellsv, rm, key, 0, (fuel - 1) as nat)
                        == spec_find_route(file@, cellsv, rm, key, i as int, (fuel - 1) as nat),
                decreases cell_count - i,
            {
                if key <= p.cells[i].row_id {
                    return find_rec(file, p.cells[i].left_child_pointer, key, fuel - 1);
                }
                i = i + 1;
            }
            find_rec(file, p.header.right_most_pointer, key, fuel - 1)
        },
        _ => Err(DbError::TypeMismatch),
    }
}

/// Finds the row with primary key `key` in the table B-tree rooted at
/// `root_page`, or `None` when no row has that id.
pub fn find_by_primary_key(file: &[u8], root_page: u32, key: u64) -> (r: Result<
    Option<TableBTreeLeafCell>,
    DbError,
>)
    ensures
        match spec_find(file@, root_page as int, key, scan_fuel(file@)) {
            Ok(None) => r matches Ok(o) && o is None,
            Ok(Some(c)) => r matches Ok(o) && (o matches Some(cell) && cell@ == c),
            Err(e) => r matches Err(e2) && e2 == e,
        },
{
    let fuel = file.len() / PAGE_SIZE + 1;
    find_rec(file, root_page, key, fuel)
}

// ---------------------------------------------------------------------------
// Batched point lookup
// ---------------------------------------------------------------------------

/// Whether a key sequence is sorted in ascending order.
pub open spec fn sorted(s: Seq<u64>) -> bool {
    forall|i: int, j: int| 0 <= i < j < s.len() ==> s[i] <= s[j]
}

/// `x` inserted in front of the first element of `s` that is at least `x`.
pub open spec fn spec_insert_sorted(s: Seq<u64>, x: u64) -> Seq<u64>
    decreases s.len(),
{
    if s.len() == 0 {
        seq![x]
    } else if x <= s[0] {
        seq![x] + s
    } else {
        seq![s[0]] + spec_insert_sorted(s.drop_first(), x)
    }
}

/// The keys of `s` sorted ascending by insertion.
pub open spec fn spec_sort(s: Seq<u64>) -> Seq<u64>
    decreases s.len(),
{
    if s.len() == 0 {
        Seq::empty()
    } else {
        spec_insert_sorted(spec_sort(s.drop_first()), s[0])
    }
}

/// Inserting into a sorted sequence keeps it sorted, grows it by one, and
/// adds exactly the inserted key to its contents.
pub proof fn lemma_insert_sorted_props(s: Seq<u64>, x: u64)
    requires
        sorted(s),
    ensures
        sorted(spec_insert_sorted(s, x)),
        spec_insert_sorted(s, x).len() == s.len() + 1,
        spec_insert_sorted(s, x).to_multiset() == s.to_multiset().insert(x),
        forall|i: int|
            0 <= i < spec_insert_sorted(s, x).len() ==> (#[trigger] spec_insert_sorted(s, x)[i]
                == x || s.contains(spec_insert_sorted(s, x)[i])),
    decreases s.len(),
{
    broadcast use vstd::seq_lib::group_to_multiset_ensures;
    broadcast use vstd::multiset::group_multiset_axioms;

    let r = spec_insert_sorted(s, x);
    if s.len() == 0 {
        assert(seq![x] =~= Seq::<u64>::empty().push(x));
        assert(r.to_multiset() =~= s.to_multiset().insert(x));
    } else if x <= s[0] {
        assert(r =~= Seq::<u64>::empty().push(x) + s);
        vstd::seq_lib::lemma_multiset_commutative(Seq::<u64>::empty().push(x), s);
        assert(r.to_multiset() =~= s.to_multiset().insert(x));
        assert(forall|i: int| 0 <= i < s.len() ==> s[i] == #[trigger] r[i + 1]);
        assert(forall|i: int| 1 <= i < r.len() ==> s.contains(#[trigger] r[i])) by {
            assert(forall|i: int| 1 <= i < r.len() ==> r[i] == s[i - 1]);
        }
    } else {
        let tail = s.drop_first();
        assert(sorted(tail)) by {
            assert(forall|i: int, j: int|
                0 <= i < j < tail.len() ==> tail[i] == s[i + 1] && tail[j] == s[j + 1]);
        }
        lemma_insert_sorted_props(tail, x);
        let rt = spec_insert_sorted(tail, x);
        assert(r =~= Seq::<u64>::empty().push(s[0]) + rt);
        vstd::seq_lib::lemma_multiset_commutative(Seq::<u64>::empty().push(s[0]), rt);
        assert(tail =~= s.remove(0));
        assert(tail.to_multiset() =~= s.to_multiset().remove(s[0]));
        assert(r.to_multiset() =~= s.to_multiset().insert(x));
        // every element of the tail insertion is x or from the tail
        assert(forall|i: int| 1 <= i < r.len() ==> r[i] == #[trigger] rt[i - 1]);
        assert(forall|i: int|
            0 <= i < tail.len() ==> s.contains(#[trigger] tail[i])) by {
            assert(forall|i: int| 0 <= i < tail.len() ==> tail[i] == s[i + 1]);
        }
        assert(forall|i: int| 1 <= i < r.len() ==> r[i] == x || s.contains(#[trigger] r[i]));
        // sortedness: s[0] is below x and below every tail element
        assert(forall|i: int| 0 <= i < tail.len() ==> s[0] <= #[trigger] tail[i]) by {
            assert(forall|i: int| 0 <= i < tail.len() ==> tail[i] == s[i + 1]);
        }
        assert(forall|y: u64| tail.contains(y) ==> s[0] <= y);
        assert(forall|i: int| 1 <= i < r.len() ==> r[0] <= #[trigger] r[i]);
        assert(forall|i: int, j: int| 1 <= i < j < r.len() ==> #[trigger] r[i] <= #[trigger] r[j])
            by {
            assert(forall|i: int, j: int|
                0 <= i < j < rt.len() ==> #[trigger] rt[i] <= #[trigger] rt[j]);
        }
    }
}

/// Sorting sorts: the result is ascending, has the same length, and holds the
/// same keys with the same multiplicities.
pub proof fn lemma_spec_sort_ensures(s: Seq<u64>)
    ensures
        sorted(spec_sort(s)),
        spec_sort(s).len() == s.len(),
        spec_sort(s).to_multiset() == s.to_multiset(),
    decreases s.len(),
{
    broadcast use vstd::seq_lib::group_to_multiset_ensures;
    broadcast use vstd::multiset::group_multiset_axioms;

    if s.len() > 0 {
        lemma_spec_sort_ensures(s.drop_first());
        lemma_insert_sorted_props(spec_sort(s.drop_first()), s[0]);
        assert(s.drop_first() =~= s.remove(0));
        assert(s.drop_first().to_multiset() =~= s.to_multiset().remove(s[0]));
        assert(spec_sort(s).to_multiset() =~= s.to_multiset());
    }
}

/// Inserting `x` at the first position whose element is at least `x` is what
/// `spec_insert_sorted` does.
proof fn lemma_insert_sorted_at(s: Seq<u64>, x: u64, pos: int)
    requires
        0 <= pos <= s.len(),
        forall|k: int| 0 <= k < pos ==> s[k] < x,
        pos < s.len() ==> x <= s[pos],
    ensures
        spec_insert_sorted(s, x) == s.insert(pos, x),
    decreases pos,
{
    if pos == 0 {
        if s.len() == 0 {
            assert(spec_insert_sorted(s, x) =~= s.insert(0, x));
        } else {
            assert(seq![x] + s =~= s.insert(0, x));
        }
    } else {
        let tail = s.drop_first();
        lemma_insert_sorted_at(tail, x, pos - 1);
        assert(seq![s[0]] + tail.insert(pos - 1, x) =~= s.insert(pos, x));
    }
}

/// Sorts the keys ascending.
fn sort_keys(keys: &Vec<u64>) -> (r: Vec<u64>)
    ensures
        r@ == spec_sort(keys@),
{
    let len = keys.len();
    let mut out: Vec<u64> = Vec::new();
    let mut idx: usize = len;
    proof {
        assert(keys@.skip(len as int) =~= Seq::<u64>::empty());
    }
    while idx > 0
        invariant
            0 <= idx <= len,
            len == keys@.len(),
            out@ == spec_sort(keys@.skip(idx as int)),
        decreases idx,
    {
        idx = idx - 1;
        let x = keys[idx];
        let out_len = out.len();
        let mut pos: usize = 0;
        while pos < out_len && out[pos] < x
            invariant
                0 <= pos <= out_len,
                out_len == out@.len(),
                forall|k: int| 0 <= k < pos ==> out@[k] < x,
            decreases out_len - pos,
        {
            pos = pos + 1;
        }
        let ghost prev = out@;
        out.insert(pos, x);
        proof {
            lemma_insert_sorted_at(prev, x, pos as int);
            assert(keys@.skip(idx as int).drop_first() =~= keys@.skip(idx + 1));
            assert(keys@.skip(idx as int)[0] == keys@[idx as int]);
        }
    }
    proof {
        assert(keys@.skip(0) =~= keys@);
    }
    out
}

/// The leaf step of the batched lookup: a merge of the leaf's cells, walked
/// from index `j`, with the ascending key list, walked from index `k`. A cell
/// below the current key is skipped; a cell equal to the current key is
/// emitted and both walks advance; a key below the current cell is absent
/// from the table and is dropped. The result is the new key cursor and the
/// matched cells in order.
pub open spec fn spec_list_leaf(cells: Seq<SpecTableLeafCell>, keys: Seq<u64>, j: int, k: int) -> (
    int,
    Seq<SpecTableLeafCell>,
)
    decreases cells.len() - j + keys.len() - k,
{
    if j < 0 || k < 0 || j >= cells.len() || k >= keys.len() {
        (k, Seq::empty())
    } else if cells[j].row_id < keys[k] {
        spec_list_leaf(cells, keys, j + 1, k)
    } else if cells[j].row_id == keys[k] {
        let r = spec_list_leaf(cells, keys, j + 1, k + 1);
        (r.0, seq![cells[j]] + r.1)
    } else {
        spec_list_leaf(cells, keys, j, k + 1)
    }
}

/// The interior step of the batched lookup: walk the routing cells from index
/// `i` with the key cursor at `k`; descend into every child whose routing row
/// id is at least the current key, carrying the cursor along, and finish in
/// the rightmost child while keys remain.
pub open spec fn spec_list_interior(
    file: Seq<u8>,
    cells: Seq<TableBTreeInteriorCell>,
    right_most: int,
    keys: Seq<u64>,
    i: int,
    k: int,
    fuel: nat,
) -> Result<(int, Seq<SpecTableLeafCell>), DbError>
    decreases fuel, (if cells.len() - i > 0 {
        cells.len() - i + 1
    } else {
        1
    }),
{
    if k < 0 || k >= keys.len() {
        Ok((k, Seq::empty()))
    } else if i < 0 || i >= cells.len() {
        spec_find_list(file, right_most, keys, k, fuel)
    } else if keys[k] <= cells[i].row_id {
        match spec_find_list(file, cells[i].left_child_pointer as int, keys, k, fuel) {
            Err(e) => Err(e),
            Ok(p) => match spec_list_interior(file, cells, right_most, keys, i + 1, p.0, fuel) {
                Err(e) => Err(e),
                Ok(q) => Ok((q.0, p.1 + q.1)),
            },
        }
    } else {
        spec_list_interior(file, cells, right_most, keys, i + 1, k, fuel)
    }
}

/// The batched lookup on the subtree rooted at `pno`: consumes the ascending
/// key list from cursor `k` and returns the new cursor with the rows found.
pub open spec fn spec_find_list(file: Seq<u8>, pno: int, keys: Seq<u64>, k: int, fuel: nat) -> Result<
    (int, Seq<SpecTableLeafCell>),
    DbError,
>
    decreases fuel, 0int,
{
    if k < 0 || k >= keys.len() {
        Ok((k, Seq::empty()))
    } else if fuel == 0 {
        Err(DbError::DepthExceeded)
    } else {
        match spec_read_page(file, pno) {
            Err(e) => Err(e),
            Ok(SpecPage::TableLeaf(p)) => Ok(spec_list_leaf(p.cells, keys, 0, k)),
            Ok(SpecPage::TableInterior(p)) => spec_list_interior(
                file,
                p.cells,
                p.header.right_most_pointer as int,
                keys,
                0,
                k,
                (fuel - 1) as nat,
            ),
            Ok(_) => Err(DbError::TypeMismatch),
        }
    }
}

/// The batched lookup on the subtree rooted at `page_no`, with the shared key
/// cursor and result list threaded through.
fn find_list_rec(
    file: &[u8],
    page_no: u32,
    keys: &Vec<u64>,
    cursor: &mut usize,
    results: &mut Vec<TableBTreeLeafCell>,
    fuel: usize,
) -> (r: Result<(), DbError>)
    requires
        *old(cursor) <= keys@.len(),
    ensures
        match spec_find_list(file@, page_no as int, keys@, *old(cursor) as int, fuel as nat) {
            Ok(p) => r is Ok && *final(cursor) == p.0 && *final(cursor) <= keys@.len()
                && cells_view(final(results)@) == cells_view(old(results)@) + p.1,
            Err(e) => r matches Err(e2) && e2 == e,
        },
    decreases fuel,
{
    let ghost k0 = *cursor as int;
    let keys_len = keys.len();
    if *cursor >= keys_len {
        proof {
            assert(cells_view(results@) =~= cells_view(results@) + Seq::<
                SpecTableLeafCell,
            >::empty());
        }
        return Ok(());
    }
    if fuel == 0 {
        return Err(DbError::DepthExceeded);
    }
    let page = match read_page(file, page_no as usize) {
        Ok(p) => p,
        Err(e) => {
            return Err(e);
        },
    };
    match page {
        Page::TableBTreeLeafPage(p) => {
            let ghost cellsv = p@.cells;
            let ghost res0 = results@;
            let ghost mut acc: Seq<SpecTableLeafCell> = Seq::empty();
            let mut cells = p.cells;
            proof {
                assert(cells_view(results@) =~= cells_view(res0) + acc);
                assert(cells_view(cells@) =~= cellsv.skip(0));
                let full = spec_list_leaf(cellsv, keys@, 0, k0);
                assert(acc + full.1 =~= full.1);
            }
            while cells.len() > 0 && *cursor < keys_len
                invariant
                    keys_len == keys@.len(),
                    *cursor <= keys_len,
                    cells@.len() <= cellsv.len(),
                    cells_view(cells@) == cellsv.skip(cellsv.len() - cells@.len()),
                    cells_view(results@) == cells_view(res0) + acc,
                    ({
                        let full = spec_list_leaf(cellsv, keys@, 0, k0);
                        let rest = spec_list_leaf(
                            cellsv,
                            keys@,
                            cellsv.len() - cells@.len(),
                            *cursor as int,
                        );
                        full.0 == rest.0 && full.1 == acc + rest.1
                    }),
                decreases cells@.len() + keys@.len() - *cursor,
            {
                let ghost j = cellsv.len() - cells@.len();
                proof {
                    assert(cells_view(cells@)[0] == cells@[0]@);
                    assert(cellsv.skip(j)[0] == cellsv[j]);
                }
                let rid = cells[0].row_id;
                let key = keys[*cursor];
                if rid < key {
                    let ghost pre_cells = cells@;
                    cells.remove(0);
                    proof {
                        assert(cells@ =~= pre_cells.drop_first());
                        assert(cells_view(cells@) =~= cellsv.skip(j + 1)) by {
                            assert(forall|m: int|
                                0 <= m < cells@.len() ==> cells_view(cells@)[m] == cells_view(
                                    pre_cells,
                                )[m + 1]);
                        }
                    }
                } else if rid == key {
                    let ghost pre_cells = cells@;
                    let cell = cells.remove(0);
                    let ghost pre = results@;
                    results.push(cell);
                    *cursor = *cursor + 1;
                    proof {
                        assert(cells@ =~= pre_cells.drop_first());
                        assert(cells_view(cells@) =~= cellsv.skip(j + 1)) by {
                            assert(forall|m: int|
                                0 <= m < cells@.len() ==> cells_view(cells@)[m] == cells_view(
                                    pre_cells,
                                )[m + 1]);
                        }
                        assert(cells_view(results@) =~= cells_view(pre).push(cellsv[j]));
                        let rest2 = spec_list_leaf(cellsv, keys@, j + 1, *cursor as int);
                        assert(acc + (seq![cellsv[j]] + rest2.1) =~= (acc.push(cellsv[j]))
                            + rest2.1);
                        assert(cells_view(res0) + acc.push(cellsv[j]) =~= (cells_view(res0)
                            + acc).push(cellsv[j]));
                        acc = acc.push(cellsv[j]);
                    }
                } else {
                    *cursor = *cursor + 1;
                }
            }
            proof {
                let rest = spec_list_leaf(
                    cellsv,
                    keys@,
                    cellsv.len() - cells@.len(),
                    *cursor as int,
                );
                assert(rest == (*cursor as int, Seq::<SpecTableLeafCell>::empty()));
                assert(acc + Seq::<SpecTableLeafCell>::empty() =~= acc);
            }
            Ok(())
        },
        Page::TableBTreeInteriorPage(p) => {
            let ghost cellsv = p.cells@;
            let ghost rm = p.header.right_most_pointer as int;
            let ghost res0 = results@;
            let ghost fuel1 = (fuel - 1) as nat;
            let ghost mut acc: Seq<SpecTableLeafCell> = Seq::empty();
            let cell_count = p.cells.len();
            let mut i: usize = 0;
            proof {
                assert(cells_view(results@) =~= cells_view(res0) + acc);
                let full = spec_list_interior(file@, cellsv, rm, keys@, 0, k0, (fuel - 1) as nat);
                if full is Ok {
                    assert(acc + full->Ok_0.1 =~= full->Ok_0.1);
                }
            }
            while i < cell_count && *cursor < keys_len
                invariant
                    keys_len == keys@.len(),
                    0 <= k0 < keys@.len(),
                    k0 == *old(cursor) as int,
                    res0 == old(results)@,
                    *cursor <= keys_len,
                    spec_find_list(file@, page_no as int, keys@, k0, fuel as nat)
                        == spec_list_interior(file@, cellsv, rm, keys@, 0, k0, fuel1),
                    0 <= i <= cell_count,
                    cell_count == cellsv.len(),
                    cellsv == p.cells@,
                    1 <= fuel,
                    fuel1 == (fuel - 1) as nat,
                    spec_read_page(file@, page_no as int) == Ok::<SpecPage, DbError>(
                        SpecPage::TableInterior(p@),
                    ),
                    p@.cells == cellsv,
                    rm == p.header.right_most_pointer as int,
                    cells_view(results@) == cells_view(res0) + acc,
                    ({
                        let full = spec_list_interior(file@, cellsv, rm, keys@, 0, k0, fuel1);
                        match spec_list_interior(
                            file@,
                            cellsv,
                            rm,
                            keys@,
                            i as int,
                            *cursor as int,
                            fuel1,
                        ) {
                            Ok(rest) => full matches Ok(q) && q.0 == rest.0 && q.1 == acc + rest.1,
                            Err(e) => full matches Err(e2) && e2 == e,
                        }
                    }),
                decreases cell_count - i,
            {
                let ghost k = *cursor as int;
                let c = p.cells[i];
                if keys[*cursor] <= c.row_id {
                    match find_list_rec(file, c.left_child_pointer, keys, cursor, results, fuel
                        - 1) {
                        Ok(()) => {},
                        Err(e) => {
                            proof {
                                let sub = spec_find_list(
                                    file@,
                                    c.left_child_pointer as int,
                                    keys@,
                                    k,
                                    fuel1,
                                );
                                assert(sub == Err::<(int, Seq<SpecTableLeafCell>), DbError>(e));
                                assert(spec_list_interior(
                                    file@,
                                    cellsv,
                                    rm,
                                    keys@,
                                    i as int,
                                    k,
                                    fuel1,
                                ) == Err::<(int, Seq<SpecTableLeafCell>), DbError>(e));
                                assert(spec_find_list(file@, page_no as int, keys@, k0, fuel as nat)
                                    == Err::<(int, Seq<SpecTableLeafCell>), DbError>(e));
                            }
                            return Err(e);
                        },
                    }
                    proof {
                        let sub = spec_find_list(
                            file@,
                            c.left_child_pointer as int,
                            keys@,
                            k,
                            fuel1,
                        );
                        let p1 = sub->Ok_0;
                        let next = spec_list_interior(
                            file@,
                            cellsv,
                            rm,
                            keys@,
                            i + 1,
                            *cursor as int,
                            fuel1,
                        );
                        if next is Ok {
                            let q1 = next->Ok_0;
                            assert((acc + p1.1) + q1.1 =~= acc + (p1.1 + q1.1));
                        }
                        assert(cells_view(res0) + (acc + p1.1) =~= (cells_view(res0) + acc)
                            + p1.1);
                        acc = acc + p1.1;
                    }
                }
                i = i + 1;
            }
            if *cursor < keys_len {
                let ghost k = *cursor as int;
                match find_list_rec(
                    file,
                    p.header.right_most_pointer,
                    keys,
                    cursor,
                    results,
                    fuel - 1,
                ) {
                    Ok(()) => {
                        proof {
                            let sub = spec_find_list(file@, rm, keys@, k, fuel1);
                            let p1 = sub->Ok_0;
                            assert(cells_view(res0) + (acc + p1.1) =~= (cells_view(res0) + acc)
                                + p1.1);
                        }
                        Ok(())
                    },
                    Err(e) => Err(e),
                }
            } else {
                proof {
                    assert(acc + Seq::<SpecTableLeafCell>::empty() =~= acc);
                }
                Ok(())
            }
        },
        _ => Err(DbError::TypeMismatch),
    }
}

/// Finds the rows whose primary keys are in `key_list`: the keys are sorted
/// ascending and the whole batch is served by one coordinated descent. An
/// empty key list, or a batch with no matches, yields `None`; otherwise the
/// matched rows come back in ascending row-id order.
pub fn find_by_primary_key_list(file: &[u8], root_page: u32, key_list: &Vec<u64>) -> (r: Result<
    Option<Vec<TableBTreeLeafCell>>,
    DbError,
>)
    ensures
        key_list@.len() == 0 ==> (r matches Ok(o) && o is None),
        key_list@.len() > 0 ==> match spec_find_list(
            file@,
            root_page as int,
            spec_sort(key_list@),
            0,
            scan_fuel(file@),
        ) {
            Ok(p) => if p.1.len() == 0 {
                r matches Ok(o) && o is None
            } else {
                r matches Ok(o) && (o matches Some(v) && cells_view(v@) == p.1)
            },
            Err(e) => r matches Err(e2) && e2 == e,
        },
{
    if key_list.len() == 0 {
        return Ok(None);
    }
    let sorted_keys = sort_keys(key_list);
    let mut cursor: usize = 0;
    let mut results: Vec<TableBTreeLeafCell> = Vec::new();
    let fuel = file.len() / PAGE_SIZE + 1;
    match find_list_rec(file, root_page, &sorted_keys, &mut cursor, &mut results, fuel) {
        Ok(()) => {
            proof {
                let p = spec_find_list(
                    file@,
                    root_page as int,
                    spec_sort(key_list@),
                    0,
                    scan_fuel(file@),
                )->Ok_0;
                assert(cells_view(Seq::<TableBTreeLeafCell>::empty()) + p.1 =~= p.1);
                assert(cells_view(results@).len() == results@.len());
            }
            if results.len() == 0 {
                Ok(None)
            } else {
                Ok(Some(results))
            }
        },
        Err(e) => Err(e),
    }
}

// ---------------------------------------------------------------------------
// Secondary-index lookup
// ---------------------------------------------------------------------------
//
// Every index cell's payload decodes to a record whose first column is the
// indexed value and whose last column is the referenced table row id. The
// lookup collects those row ids for every record whose first column equals
// the key; with `distinct` set it stops at the first match.

/// The leaf step of an index lookup: scan the cells from index `i`, and for
/// each record whose first column equals `key`, emit its last column as a row
/// id. A record with no columns is refused.
pub open spec fn spec_index_leaf_scan(
    cells: Seq<SpecIndexLeafCell>,
    key: SpecColumn,
    distinct: bool,
    i: int,
) -> Result<Seq<u64>, DbError>
    decreases cells.len() - i,
{
    if i < 0 || i >= cells.len() {
        Ok(Seq::empty())
    } else {
        match spec_record(cells[i].payload) {
            Err(e) => Err(e),
            Ok(rec) => if rec.body.len() == 0 {
                Err(DbError::TypeMismatch)
            } else {
                match spec_col_eq(rec.body[0], key) {
                    Err(e) => Err(e),
                    Ok(true) => match spec_force_u64(rec.body[rec.body.len() - 1]) {
                        Err(e) => Err(e),
                        Ok(v) => if distinct {
                            Ok(seq![v])
                        } else {
                            match spec_index_leaf_scan(cells, key, distinct, i + 1) {
                                Err(e) => Err(e),
                                Ok(s) => Ok(seq![v] + s),
                            }
                        },
                    },
                    Ok(false) => spec_index_leaf_scan(cells, key, distinct, i + 1),
                }
            },
        }
    }
}

/// The interior step of an index lookup, scanning the routing cells from
/// index `i`. A key strictly below a cell's first column can only live in
/// that cell's left child. A key equal to it is itself a match, and - since
/// the index need not be unique - the left child may hold more; with
/// `distinct` set the cell's own match settles the lookup. A key above it
/// moves to the next cell, and past the last cell the rightmost child covers
/// what remains.
pub open spec fn spec_index_interior_scan(
    file: Seq<u8>,
    cells: Seq<SpecIndexInteriorCell>,
    right_most: int,
    key: SpecColumn,
    distinct: bool,
    i: int,
    fuel: nat,
) -> Result<Seq<u64>, DbError>
    decreases fuel, (if cells.len() - i > 0 {
        cells.len() - i + 1
    } else {
        1
    }),
{
    if i < 0 || i >= cells.len() {
        spec_index_find(file, right_most, key, distinct, fuel)
    } else {
        match spec_record(cells[i].payload) {
            Err(e) => Err(e),
            Ok(rec) => if rec.body.len() == 0 {
                Err(DbError::TypeMismatch)
            } else {
                match spec_col_cmp(key, rec.body[0]) {
                    Err(e) => Err(e),
                    Ok(ColumnOrder::Less) => spec_index_find(
                        file,
                        cells[i].left_child_pointer as int,
                        key,
                        distinct,
                        fuel,
                    ),
                    Ok(ColumnOrder::Equal) => match spec_force_u64(
                        rec.body[rec.body.len() - 1],
                    ) {
                        Err(e) => Err(e),
                        Ok(v) => if distinct {
                            Ok(seq![v])
                        } else {
                            match spec_index_find(
                                file,
                                cells[i].left_child_pointer as int,
                                key,
                                distinct,
                                fuel,
                            ) {
                                Err(e) => Err(e),
                                Ok(s) => match spec_index_interior_scan(
                                    file,
                                    cells,
                                    right_most,
                                    key,
                                    distinct,
                                    i + 1,
                                    fuel,
                                ) {
                                    Err(e) => Err(e),
                                    Ok(t) => Ok(seq![v] + s + t),
                                },
                            }
                        },
                    },
                    Ok(ColumnOrder::Greater) => spec_index_interior_scan(
                        file,
                        cells,
                        right_most,
                        key,
                        distinct,
                        i + 1,
                        fuel,
                    ),
                }
            },
        }
    }
}

/// The index lookup on the B-tree rooted at `pno`: the row ids of the index
/// entries whose first column equals `key`, in traversal order; just the
/// first of them with `distinct` set.
pub open spec fn spec_index_find(
    file: Seq<u8>,
    pno: int,
    key: SpecColumn,
    distinct: bool,
    fuel: nat,
) -> Result<Seq<u64>, DbError>
    decreases fuel, 0int,
{
    if fuel == 0 {
        Err(DbError::DepthExceeded)
    } else {
        match spec_read_page(file, pno) {
            Err(e) => Err(e),
            Ok(SpecPage::IndexLeaf(p)) => spec_index_leaf_scan(p.cells, key, distinct, 0),
            Ok(SpecPage::IndexInterior(p)) => spec_index_interior_scan(
                file,
                p.cells,
                p.header.right_most_pointer as int,
                key,
                distinct,
                0,
                (fuel - 1) as nat,
            ),
            Ok(_) => Err(DbError::TypeMismatch),
        }
    }
}

/// The index lookup on the subtree rooted at `root_page`, appending matched
/// row ids to `result`.
#[verifier::rlimit(100)]
fn find_key_in_index_impl(
    file: &[u8],
    root_page: u32,
    key: &Column,
    result: &mut Vec<u64>,
    distinct: bool,
    fuel: usize,
) -> (r: Result<(), DbError>)
    ensures
        match spec_index_find(file@, root_page as int, key@, distinct, fuel as nat) {
            Ok(s) => r is Ok && final(result)@ == old(result)@ + s,
            Err(e) => r matches Err(e2) && e2 == e,
        },
    decreases fuel,
{
    if fuel == 0 {
        return Err(DbError::DepthExceeded);
    }
    let page = match read_page(file, root_page as usize) {
        Ok(p) => p,
        Err(e) => {
            return Err(e);
        },
    };
    match page {
        Page::IndexBTreeLeafPage(p) => {
            let ghost cellsv = p@.cells;
            let ghost res0 = result@;
            let ghost mut acc: Seq<u64> = Seq::empty();
            let cell_count = p.cells.len();
            let mut i: usize = 0;
            proof {
                assert(result@ =~= res0 + acc);
                let full = spec_index_leaf_scan(cellsv, key@, distinct, 0);
                if full is Ok {
                    assert(acc + full->Ok_0 =~= full->Ok_0);
                }
            }
            while i < cell_count
                invariant
                    0 <= i <= cell_count,
                    cell_count == cellsv.len(),
                    cellsv == p.cells@.map_values(|c: crate::page::IndexBTreeLeafCell| c@),
                    cell_count == p.cells@.len(),
                    spec_index_find(file@, root_page as int, key@, distinct, fuel as nat)
                        == spec_index_leaf_scan(cellsv, key@, distinct, 0),
                    res0 == old(result)@,
                    result@ == res0 + acc,
                    ({
                        let full = spec_index_leaf_scan(cellsv, key@, distinct, 0);
                        match spec_index_leaf_scan(cellsv, key@, distinct, i as int) {
                            Ok(rest) => full matches Ok(q) && q == acc + rest,
                            Err(e) => full matches Err(e2) && e2 == e,
                        }
                    }),
                decreases cell_count - i,
            {
                proof {
                    assert(cellsv[i as int] == p.cells@[i as int]@);
                }
                let rec = match Record::new(p.cells[i].payload.as_slice()) {
                    Ok(rr) => rr,
                    Err(e) => {
                        return Err(e);
                    },
                };
                let body_len = rec.body.len();
                proof {
                    assert(rec@.body.len() == body_len);
                }
                if body_len == 0 {
                    return Err(DbError::TypeMismatch);
                }
                proof {
                    assert(rec@.body[0] == rec.body@[0]@);
                    assert(rec@.body[rec@.body.len() - 1] == rec.body@[body_len - 1]@);
                }
                let matched = match rec.body[0].equals(key) {
                    Ok(b) => b,
                    Err(e) => {
                        return Err(e);
                    },
                };
                if matched {
                    let v = match force_cast_column_to_u64(&rec.body[body_len - 1]) {
                        Ok(v) => v,
                        Err(e) => {
                            return Err(e);
                        },
                    };
                    result.push(v);
                    if distinct {
                        proof {
                            assert(result@ =~= res0 + acc.push(v));
                            assert(acc + seq![v] =~= acc.push(v));
                        }
                        return Ok(());
                    }
                    proof {
                        assert(result@ =~= res0 + acc.push(v));
                        let rest2 = spec_index_leaf_scan(cellsv, key@, distinct, i + 1);
                        if rest2 is Ok {
                            assert(acc + (seq![v] + rest2->Ok_0) =~= acc.push(v) + rest2->Ok_0);
                        }
                        acc = acc.push(v);
                    }
                }
                i = i + 1;
            }
            proof {
                assert(acc + Seq::<u64>::empty() =~= acc);
            }
            Ok(())
        },
        Page::IndexBTreeInteriorPage(p) => {
            let ghost cellsv = p@.cells;
            let ghost rm = p.header.right_most_pointer as int;
            let ghost res0 = result@;
            let ghost fuel1 = (fuel - 1) as nat;
            let ghost mut acc: Seq<u64> = Seq::empty();
            let cell_count = p.cells.len();
            let mut i: usize = 0;
            proof {
                assert(result@ =~= res0 + acc);
                let full = spec_index_interior_scan(file@, cellsv, rm, key@, distinct, 0, fuel1);
                if full is Ok {
                    assert(acc + full->Ok_0 =~= full->Ok_0);
                }
            }
            while i < cell_count
                invariant
                    0 <= i <= cell_count,
                    cell_count == cellsv.len(),
                    cellsv == p.cells@.map_values(|c: crate::page::IndexBTreeInteriorCell| c@),
                    cell_count == p.cells@.len(),
                    1 <= fuel,
                    fuel1 == (fuel - 1) as nat,
                    spec_index_find(file@, root_page as int, key@, distinct, fuel as nat)
                        == spec_index_interior_scan(file@, cellsv, rm, key@, distinct, 0, fuel1),
                    res0 == old(result)@,
                    result@ == res0 + acc,
                    ({
                        let full = spec_index_interior_scan(
                            file@,
                            cellsv,
                            rm,
                            key@,
                            distinct,
                            0,
                            fuel1,
                        );
                        match spec_index_interior_scan(
                            file@,
                            cellsv,
                            rm,
                            key@,
                            distinct,
                            i as int,
                            fuel1,
                        ) {
                            Ok(rest) => full matches Ok(q) && q == acc + rest,
                            Err(e) => full matches Err(e2) && e2 == e,
                        }
                    }),
                decreases cell_count - i,
            {
                proof {
                    assert(cellsv[i as int] == p.cells@[i as int]@);
                }
                let rec = match Record::new(p.cells[i].payload.as_slice()) {
                    Ok(rr) => rr,
                    Err(e) => {
                        return Err(e);
                    },
                };
                let body_len = rec.body.len();
                if body_len == 0 {
                    return Err(DbError::TypeMismatch);
                }
                proof {
                    assert(rec@.body[0] == rec.body@[0]@);
                    assert(rec@.body[rec@.body.len() - 1] == rec.body@[body_len - 1]@);
                }
                let ord = match key.compare(&rec.body[0]) {
                    Ok(o) => o,
                    Err(e) => {
                        return Err(e);
                    },
                };
                match ord {
                    ColumnOrder::Less => {
                        // the key sorts before this cell: only the left child can hold it
                        let rr = find_key_in_index_impl(
                            file,
                            p.cells[i].left_child_pointer,
                            key,
                            result,
                            distinct,
                            fuel - 1,
                        );
                        proof {
                            let sub = spec_index_find(
                                file@,
                                cellsv[i as int].left_child_pointer as int,
                                key@,
                                distinct,
                                fuel1,
                            );
                            if sub is Ok {
                                assert(result@ =~= res0 + (acc + sub->Ok_0));
                            }
                        }
                        return rr;
                    },
                    ColumnOrder::Equal => {
                        let v = match force_cast_column_to_u64(&rec.body[body_len - 1]) {
                            Ok(v) => v,
                            Err(e) => {
                                return Err(e);
                            },
                        };
                        result.push(v);
                        if distinct {
                            proof {
                                assert(result@ =~= res0 + acc.push(v));
                                assert(acc + seq![v] =~= acc.push(v));
                            }
                            return Ok(());
                        }
                        let ghost pre = result@;
                        match find_key_in_index_impl(
                            file,
                            p.cells[i].left_child_pointer,
                            key,
                            result,
                            distinct,
                            fuel - 1,
                        ) {
                            Ok(()) => {},
                            Err(e) => {
                                return Err(e);
                            },
                        }
                        proof {
                            let sub = spec_index_find(
                                file@,
                                cellsv[i as int].left_child_pointer as int,
                                key@,
                                distinct,
                                fuel1,
                            );
                            let s1 = sub->Ok_0;
                            let next = spec_index_interior_scan(
                                file@,
                                cellsv,
                                rm,
                                key@,
                                distinct,
                                i + 1,
                                fuel1,
                            );
                            if next is Ok {
                                assert(acc + (seq![v] + s1 + next->Ok_0) =~= ((acc.push(v)) + s1)
                                    + next->Ok_0);
                            }
                            assert(result@ =~= res0 + (acc.push(v) + s1));
                            acc = acc.push(v) + s1;
                        }
                    },
                    ColumnOrder::Greater => {
                        // the key sorts after this cell: move on
                    },
                }
                i = i + 1;
            }
            let rr = find_key_in_index_impl(
                file,
                p.header.right_most_pointer,
                key,
                result,
                distinct,
                fuel - 1,
            );
            proof {
                let sub = spec_index_find(file@, rm, key@, distinct, fuel1);
                if sub is Ok {
                    assert(result@ =~= res0 + (acc + sub->Ok_0));
                }
            }
            rr
        },
        _ => Err(DbError::TypeMismatch),
    }
}

/// Finds every row id the index maps `key` to: `None` when the index holds no
/// entry for `key`, else all matching row ids in traversal order.
pub fn find_keys_in_index(file: &[u8], root_page: u32, key: Column) -> (r: Result<
    Option<Vec<u64>>,
    DbError,
>)
    ensures
        match spec_index_find(file@, root_page as int, key@, false, scan_fuel(file@)) {
            Ok(s) => if s.len() == 0 {
                r matches Ok(o) && o is None
            } else {
                r matches Ok(o) && (o matches Some(v) && v@ == s)
            },
            Err(e) => r matches Err(e2) && e2 == e,
        },
{
    let mut result: Vec<u64> = Vec::new();
    let fuel = file.len() / PAGE_SIZE + 1;
    match find_key_in_index_impl(file, root_page, &key, &mut result, false, fuel) {
        Ok(()) => {
            proof {
                let s = spec_index_find(file@, root_page as int, key@, false, scan_fuel(file@));
                assert(Seq::<u64>::empty() + s->Ok_0 =~= s->Ok_0);
            }
            if result.len() > 0 {
                Ok(Some(result))
            } else {
                Ok(None)
            }
        },
        Err(e) => Err(e),
    }
}

/// Finds one row id the index maps `key` to - the first the traversal meets -
/// or `None` when the index holds no entry for `key`.
pub fn find_key_in_index(file: &[u8], root_page: u32, key: Column) -> (r: Result<
    Option<u64>,
    DbError,
>)
    ensures
        match spec_index_find(file@, root_page as int, key@, true, scan_fuel(file@)) {
            Ok(s) => if s.len() == 0 {
                r matches Ok(o) && o is None
            } else {
                r matches Ok(o) && o == Some(s[0])
            },
            Err(e) => r matches Err(e2) && e2 == e,
        },
{
    let mut result: Vec<u64> = Vec::new();
    let fuel = file.len() / PAGE_SIZE + 1;
    match find_key_in_index_impl(file, root_page, &key, &mut result, true, fuel) {
        Ok(()) => {
            proof {
                let s = spec_index_find(file@, root_page as int, key@, true, scan_fuel(file@));
                assert(Seq::<u64>::empty() + s->Ok_0 =~= s->Ok_0);
            }
            if result.len() > 0 {
                let v = result[0];
                Ok(Some(v))
            } else {
                Ok(None)
            }
        },
        Err(e) => Err(e),
    }
}

} // verus!
