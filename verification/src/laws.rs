use crate::btree::{
    spec_find, spec_find_in_leaf, spec_find_list, spec_find_route, spec_list_interior,
    spec_list_leaf, spec_read_page, spec_scan, spec_scan_children,
};
use crate::errors::DbError;
use crate::page::{SpecPage, SpecTableLeafCell, TableBTreeInteriorCell};
use vstd::prelude::*;

verus! {

// ---------------------------------------------------------------------------
// Well-formed table B-trees
// ---------------------------------------------------------------------------
//
// The traversal laws hold of well-formed trees: every reachable page decodes
// as a table page of the right kind, the row ids of each leaf ascend
// strictly, and an interior cell's routing row id bounds its left subtree
// from above while the previous cell's bounds it from below. `lo` and `hi`
// delimit the row ids a subtree may hold: `lo` exclusive, `hi` inclusive.

/// Row ids of `cells` ascend strictly and lie in `(lo, hi]`.
pub open spec fn rows_in_range_ascending(cells: Seq<SpecTableLeafCell>, lo: int, hi: int) -> bool {
    &&& forall|i: int| 0 <= i < cells.len() ==> lo < (#[trigger] cells[i].row_id) <= hi
    &&& forall|i: int, j: int|
        0 <= i < j < cells.len() ==> (#[trigger] cells[i].row_id) < (#[trigger] cells[j].row_id)
}

/// The lower bound of the subtree under cell `i`: the previous cell's routing
/// row id, or the page's own lower bound for the first cell.
pub open spec fn child_lo(cells: Seq<TableBTreeInteriorCell>, i: int, lo: int) -> int {
    if i == 0 {
        lo
    } else {
        cells[i - 1].row_id as int
    }
}

/// The lower bound of the rightmost subtree: the last cell's routing row id,
/// or the page's own lower bound when the page has no cells.
pub open spec fn last_bound(cells: Seq<TableBTreeInteriorCell>, lo: int) -> int {
    if cells.len() == 0 {
        lo
    } else {
        cells[cells.len() - 1].row_id as int
    }
}

/// The subtrees under the first `n` cells of an interior page are well formed,
/// each within the band its neighbouring routing row ids delimit.
pub open spec fn wf_children(
    file: Seq<u8>,
    cells: Seq<TableBTreeInteriorCell>,
    lo: int,
    n: int,
    fuel: nat,
) -> bool
    decreases fuel, n,
{
    if n <= 0 {
        true
    } else {
        &&& wf_children(file, cells, lo, n - 1, fuel)
        &&& wf_table(
            file,
            cells[n - 1].left_child_pointer as int,
            child_lo(cells, n - 1, lo),
            cells[n - 1].row_id as int,
            fuel,
        )
    }
}

/// A well-formed table B-tree rooted at `pno`, holding only row ids in
/// `(lo, hi]`.
pub open spec fn wf_table(file: Seq<u8>, pno: int, lo: int, hi: int, fuel: nat) -> bool
    decreases fuel, 0int,
{
    &&& fuel > 0
    &&& match spec_read_page(file, pno) {
        Ok(SpecPage::TableLeaf(p)) => rows_in_range_ascending(p.cells, lo, hi),
        Ok(SpecPage::TableInterior(p)) => {
            &&& forall|i: int|
                0 <= i < p.cells.len() ==> lo < (#[trigger] p.cells[i].row_id) <= hi
            &&& forall|i: int, j: int|
                0 <= i < j < p.cells.len() ==> (#[trigger] p.cells[i].row_id) < (
                #[trigger] p.cells[j].row_id)
            &&& wf_children(file, p.cells, lo, p.cells.len() as int, (fuel - 1) as nat)
            &&& wf_table(
                file,
                p.header.right_most_pointer as int,
                last_bound(p.cells, lo),
                hi,
                (fuel - 1) as nat,
            )
        },
        _ => false,
    }
}

/// The rows under the cells of an interior page from index `i` on,
/// concatenated in cell order.
pub open spec fn spec_scan_children_from(
    file: Seq<u8>,
    cells: Seq<TableBTreeInteriorCell>,
    i: int,
    fuel: nat,
) -> Result<Seq<SpecTableLeafCell>, DbError>
    decreases fuel, (if cells.len() - i > 0 {
        cells.len() - i + 1
    } else {
        1
    }),
{
    if i < 0 || i >= cells.len() {
        Ok(Seq::empty())
    } else {
        match spec_scan(file, cells[i].left_child_pointer as int, fuel) {
            Err(e) => Err(e),
            Ok(s) => match spec_scan_children_from(file, cells, i + 1, fuel) {
                Err(e) => Err(e),
                Ok(t) => Ok(s + t),
            },
        }
    }
}

/// A prefix of a successful child collection is itself successful.
proof fn lemma_children_prefix_ok(
    file: Seq<u8>,
    cells: Seq<TableBTreeInteriorCell>,
    i: int,
    n: int,
    fuel: nat,
)
    requires
        0 <= i <= n,
        spec_scan_children(file, cells, n, fuel) is Ok,
    ensures
        spec_scan_children(file, cells, i, fuel) is Ok,
    decreases n - i,
{
    if i < n {
        assert(spec_scan_children(file, cells, n - 1, fuel) is Ok);
        lemma_children_prefix_ok(file, cells, i, n - 1, fuel);
    }
}

/// A successful child collection splits at any index into the rows before it
/// and the rows from it on.
proof fn lemma_scan_children_split(
    file: Seq<u8>,
    cells: Seq<TableBTreeInteriorCell>,
    i: int,
    fuel: nat,
)
    requires
        0 <= i <= cells.len(),
        spec_scan_children(file, cells, cells.len() as int, fuel) is Ok,
    ensures
        spec_scan_children(file, cells, i, fuel) is Ok,
        spec_scan_children_from(file, cells, i, fuel) is Ok,
        spec_scan_children(file, cells, cells.len() as int, fuel)->Ok_0 == spec_scan_children(
            file,
            cells,
            i,
            fuel,
        )->Ok_0 + spec_scan_children_from(file, cells, i, fuel)->Ok_0,
    decreases cells.len() - i,
{
    let n = cells.len() as int;
    lemma_children_prefix_ok(file, cells, i, n, fuel);
    if i == n {
        assert(spec_scan_children(file, cells, n, fuel)->Ok_0 + Seq::<
            SpecTableLeafCell,
        >::empty() =~= spec_scan_children(file, cells, n, fuel)->Ok_0);
    } else {
        lemma_scan_children_split(file, cells, i + 1, fuel);
        lemma_children_prefix_ok(file, cells, i + 1, n, fuel);
        let a = spec_scan_children(file, cells, i, fuel)->Ok_0;
        let b = spec_scan(file, cells[i].left_child_pointer as int, fuel)->Ok_0;
        let c = spec_scan_children_from(file, cells, i + 1, fuel)->Ok_0;
        assert(spec_scan_children(file, cells, i + 1, fuel)->Ok_0 == a + b);
        assert((a + b) + c =~= a + (b + c));
    }
}

/// A well-formed subtree scans successfully, and its rows ascend strictly
/// within the subtree's band.
pub proof fn lemma_wf_scan(file: Seq<u8>, pno: int, lo: int, hi: int, fuel: nat)
    requires
        wf_table(file, pno, lo, hi, fuel),
    ensures
        spec_scan(file, pno, fuel) is Ok,
        rows_in_range_ascending(spec_scan(file, pno, fuel)->Ok_0, lo, hi),
    decreases fuel, 0int,
{
    match spec_read_page(file, pno) {
        Ok(SpecPage::TableLeaf(p)) => {},
        Ok(SpecPage::TableInterior(p)) => {
            let n = p.cells.len() as int;
            lemma_wf_scan_children(file, p.cells, lo, n, (fuel - 1) as nat);
            lemma_wf_scan(
                file,
                p.header.right_most_pointer as int,
                last_bound(p.cells, lo),
                hi,
                (fuel - 1) as nat,
            );
            let s = spec_scan_children(file, p.cells, n, (fuel - 1) as nat)->Ok_0;
            let t = spec_scan(file, p.header.right_most_pointer as int, (fuel - 1) as nat)->Ok_0;
            let rows = s + t;
            assert forall|i: int| 0 <= i < rows.len() implies lo < (#[trigger] rows[i].row_id)
                <= hi by {
                if i < s.len() {
                    assert(rows[i] == s[i]);
                    if n > 0 {
                        assert(lo < p.cells[n - 1].row_id <= hi);
                    }
                } else {
                    assert(rows[i] == t[i - s.len()]);
                    if n > 0 {
                        assert(lo < p.cells[n - 1].row_id <= hi);
                    }
                }
            }
            assert forall|i: int, j: int| 0 <= i < j < rows.len() implies (
            #[trigger] rows[i].row_id) < (#[trigger] rows[j].row_id) by {
                if j < s.len() {
                    assert(rows[i] == s[i] && rows[j] == s[j]);
                } else if i >= s.len() {
                    assert(rows[i] == t[i - s.len()] && rows[j] == t[j - s.len()]);
                } else {
                    assert(rows[i] == s[i] && rows[j] == t[j - s.len()]);
                    assert(s[i].row_id <= last_bound(p.cells, lo));
                    assert(last_bound(p.cells, lo) < t[j - s.len()].row_id);
                }
            }
        },
        _ => {},
    }
}

/// The rows under the first `n` cells of a well-formed interior page scan
/// successfully and ascend strictly within `(lo, bound]`, where `bound` is the
/// `n`-th cell's routing row id (or `lo` when `n` is zero).
proof fn lemma_wf_scan_children(
    file: Seq<u8>,
    cells: Seq<TableBTreeInteriorCell>,
    lo: int,
    n: int,
    fuel: nat,
)
    requires
        0 <= n <= cells.len(),
        wf_children(file, cells, lo, n, fuel),
        forall|i: int, j: int|
            0 <= i < j < cells.len() ==> (#[trigger] cells[i].row_id) < (
            #[trigger] cells[j].row_id),
        forall|i: int| 0 <= i < cells.len() ==> lo < (#[trigger] cells[i].row_id),
    ensures
        spec_scan_children(file, cells, n, fuel) is Ok,
        rows_in_range_ascending(
            spec_scan_children(file, cells, n, fuel)->Ok_0,
            lo,
            child_lo(cells, n, lo),
        ),
    decreases fuel, n,
{
    if n > 0 {
        lemma_wf_scan_children(file, cells, lo, n - 1, fuel);
        lemma_wf_scan(
            file,
            cells[n - 1].left_child_pointer as int,
            child_lo(cells, n - 1, lo),
            cells[n - 1].row_id as int,
            fuel,
        );
        let s = spec_scan_children(file, cells, n - 1, fuel)->Ok_0;
        let t = spec_scan(file, cells[n - 1].left_child_pointer as int, fuel)->Ok_0;
        let rows = s + t;
        assert forall|i: int| 0 <= i < rows.len() implies lo < (#[trigger] rows[i].row_id)
            <= child_lo(cells, n, lo) by {
            if i < s.len() {
                assert(rows[i] == s[i]);
                assert(child_lo(cells, n - 1, lo) <= child_lo(cells, n, lo));
            } else {
                assert(rows[i] == t[i - s.len()]);
                assert(lo <= child_lo(cells, n - 1, lo));
            }
        }
        assert forall|i: int, j: int| 0 <= i < j < rows.len() implies (
        #[trigger] rows[i].row_id) < (#[trigger] rows[j].row_id) by {
            if j < s.len() {
                assert(rows[i] == s[i] && rows[j] == s[j]);
            } else if i >= s.len() {
                assert(rows[i] == t[i - s.len()] && rows[j] == t[j - s.len()]);
            } else {
                assert(rows[i] == s[i] && rows[j] == t[j - s.len()]);
                assert(s[i].row_id <= child_lo(cells, n - 1, lo));
                assert(child_lo(cells, n - 1, lo) < t[j - s.len()].row_id);
            }
        }
    }
}

/// The rows under the cells from index `i` on scan successfully and ascend
/// strictly between the `i`-th band's lower bound and the last cell's routing
/// row id.
proof fn lemma_wf_scan_children_from(
    file: Seq<u8>,
    cells: Seq<TableBTreeInteriorCell>,
    lo: int,
    i: int,
    fuel: nat,
)
    requires
        0 <= i <= cells.len(),
        wf_children(file, cells, lo, cells.len() as int, fuel),
        forall|i: int, j: int|
            0 <= i < j < cells.len() ==> (#[trigger] cells[i].row_id) < (
            #[trigger] cells[j].row_id),
        forall|i: int| 0 <= i < cells.len() ==> lo < (#[trigger] cells[i].row_id),
    ensures
        spec_scan_children_from(file, cells, i, fuel) is Ok,
        rows_in_range_ascending(
            spec_scan_children_from(file, cells, i, fuel)->Ok_0,
            child_lo(cells, i, lo),
            last_bound(cells, lo),
        ),
    decreases cells.len() - i,
{
    let n = cells.len() as int;
    if i < n {
        lemma_wf_children_extract(file, cells, lo, n, fuel, i);
        lemma_wf_scan(
            file,
            cells[i].left_child_pointer as int,
            child_lo(cells, i, lo),
            cells[i].row_id as int,
            fuel,
        );
        lemma_wf_scan_children_from(file, cells, lo, i + 1, fuel);
        let s = spec_scan(file, cells[i].left_child_pointer as int, fuel)->Ok_0;
        let t = spec_scan_children_from(file, cells, i + 1, fuel)->Ok_0;
        let rows = s + t;
        assert(cells[i].row_id <= last_bound(cells, lo));
        assert forall|a: int| 0 <= a < rows.len() implies child_lo(cells, i, lo) < (
        #[trigger] rows[a].row_id) <= last_bound(cells, lo) by {
            if a < s.len() {
                assert(rows[a] == s[a]);
            } else {
                assert(rows[a] == t[a - s.len()]);
                assert(child_lo(cells, i, lo) <= child_lo(cells, i + 1, lo));
            }
        }
        assert forall|a: int, b: int| 0 <= a < b < rows.len() implies (
        #[trigger] rows[a].row_id) < (#[trigger] rows[b].row_id) by {
            if b < s.len() {
                assert(rows[a] == s[a] && rows[b] == s[b]);
            } else if a >= s.len() {
                assert(rows[a] == t[a - s.len()] && rows[b] == t[b - s.len()]);
            } else {
                assert(rows[a] == s[a] && rows[b] == t[b - s.len()]);
                assert(s[a].row_id <= cells[i].row_id);
                assert(cells[i].row_id == child_lo(cells, i + 1, lo));
                assert(child_lo(cells, i + 1, lo) < t[b - s.len()].row_id);
            }
        }
    }
}

/// Every child of a well-formed prefix is itself a well-formed subtree.
proof fn lemma_wf_children_extract(
    file: Seq<u8>,
    cells: Seq<TableBTreeInteriorCell>,
    lo: int,
    n: int,
    fuel: nat,
    m: int,
)
    requires
        0 <= m < n <= cells.len(),
        wf_children(file, cells, lo, n, fuel),
    ensures
        wf_table(
            file,
            cells[m].left_child_pointer as int,
            child_lo(cells, m, lo),
            cells[m].row_id as int,
            fuel,
        ),
    decreases n,
{
    if m < n - 1 {
        lemma_wf_children_extract(file, cells, lo, n - 1, fuel, m);
    }
}

// ---------------------------------------------------------------------------
// Point-lookup correctness
// ---------------------------------------------------------------------------

/// Searching past the front of a concatenation searches the tail alone.
proof fn lemma_find_in_leaf_shift(a: Seq<SpecTableLeafCell>, b: Seq<SpecTableLeafCell>, key: u64, j: int)
    requires
        0 <= j <= b.len(),
    ensures
        spec_find_in_leaf(a + b, key, a.len() + j) == spec_find_in_leaf(b, key, j),
    decreases b.len() - j,
{
    if j < b.len() {
        assert((a + b)[a.len() + j] == b[j]);
        lemma_find_in_leaf_shift(a, b, key, j + 1);
    }
}

/// In a concatenation, the first match of the front wins, and otherwise the
/// search moves on to the tail.
proof fn lemma_find_in_leaf_concat(a: Seq<SpecTableLeafCell>, b: Seq<SpecTableLeafCell>, key: u64, i: int)
    requires
        0 <= i <= a.len(),
    ensures
        spec_find_in_leaf(a + b, key, i) == (match spec_find_in_leaf(a, key, i) {
            Some(c) => Some(c),
            None => spec_find_in_leaf(b, key, 0),
        }),
    decreases a.len() - i,
{
    if i == a.len() {
        lemma_find_in_leaf_shift(a, b, key, 0);
    } else {
        assert((a + b)[i] == a[i]);
        lemma_find_in_leaf_concat(a, b, key, i + 1);
    }
}

/// A search finds nothing when no cell from `i` on carries the key.
proof fn lemma_find_in_leaf_none(cells: Seq<SpecTableLeafCell>, key: u64, i: int)
    requires
        0 <= i,
        forall|t: int| i <= t < cells.len() ==> (#[trigger] cells[t].row_id) != key,
    ensures
        spec_find_in_leaf(cells, key, i) is None,
    decreases cells.len() - i,
{
    if i < cells.len() {
        lemma_find_in_leaf_none(cells, key, i + 1);
    }
}

/// The routing walk from cell `i` finds exactly what a linear search of the
/// remaining subtrees' rows would find, provided the key is above every
/// routing row id already passed.
proof fn lemma_find_route_correct(
    file: Seq<u8>,
    cells: Seq<TableBTreeInteriorCell>,
    rm: int,
    lo: int,
    hi: int,
    key: u64,
    i: int,
    fuel: nat,
)
    requires
        0 <= i <= cells.len(),
        wf_children(file, cells, lo, cells.len() as int, fuel),
        wf_table(file, rm, last_bound(cells, lo), hi, fuel),
        forall|a: int, b: int|
            0 <= a < b < cells.len() ==> (#[trigger] cells[a].row_id) < (
            #[trigger] cells[b].row_id),
        forall|a: int| 0 <= a < cells.len() ==> lo < (#[trigger] cells[a].row_id) <= hi,
        forall|m: int| 0 <= m < i ==> key > (#[trigger] cells[m].row_id),
    ensures
        spec_scan_children_from(file, cells, i, fuel) is Ok,
        spec_scan(file, rm, fuel) is Ok,
        spec_find_route(file, cells, rm, key, i, fuel) == Ok::<Option<SpecTableLeafCell>, DbError>(
            spec_find_in_leaf(
                spec_scan_children_from(file, cells, i, fuel)->Ok_0 + spec_scan(
                    file,
                    rm,
                    fuel,
                )->Ok_0,
                key,
                0,
            ),
        ),
    decreases fuel, cells.len() - i + 1,
{
    let n = cells.len() as int;
    lemma_wf_scan_children_from(file, cells, lo, i, fuel);
    lemma_wf_scan(file, rm, last_bound(cells, lo), hi, fuel);
    let rmrows = spec_scan(file, rm, fuel)->Ok_0;
    if i == n {
        lemma_find_matches_scan(file, rm, last_bound(cells, lo), hi, key, fuel);
        assert(Seq::<SpecTableLeafCell>::empty() + rmrows =~= rmrows);
    } else {
        lemma_wf_children_extract(file, cells, lo, n, fuel, i);
        lemma_wf_scan(
            file,
            cells[i].left_child_pointer as int,
            child_lo(cells, i, lo),
            cells[i].row_id as int,
            fuel,
        );
        lemma_wf_scan_children_from(file, cells, lo, i + 1, fuel);
        let s = spec_scan(file, cells[i].left_child_pointer as int, fuel)->Ok_0;
        let t = spec_scan_children_from(file, cells, i + 1, fuel)->Ok_0;
        let all = spec_scan_children_from(file, cells, i, fuel)->Ok_0 + rmrows;
        assert(all =~= s + (t + rmrows));
        if key <= cells[i].row_id {
            lemma_find_matches_scan(
                file,
                cells[i].left_child_pointer as int,
                child_lo(cells, i, lo),
                cells[i].row_id as int,
                key,
                fuel,
            );
            lemma_find_in_leaf_concat(s, t + rmrows, key, 0);
            assert forall|u: int| 0 <= u < (t + rmrows).len() implies (#[trigger] (t
                + rmrows)[u].row_id) != key by {
                if u < t.len() {
                    assert((t + rmrows)[u] == t[u]);
                    assert(t[u].row_id > child_lo(cells, i + 1, lo));
                } else {
                    assert((t + rmrows)[u] == rmrows[u - t.len()]);
                    assert(rmrows[u - t.len()].row_id > last_bound(cells, lo));
                    assert(cells[i].row_id <= last_bound(cells, lo));
                }
            }
            lemma_find_in_leaf_none(t + rmrows, key, 0);
        } else {
            lemma_find_route_correct(file, cells, rm, lo, hi, key, i + 1, fuel);
            lemma_find_in_leaf_concat(s, t + rmrows, key, 0);
            assert forall|u: int| 0 <= u < s.len() implies (#[trigger] s[u].row_id) != key by {
                assert(s[u].row_id <= cells[i].row_id);
            }
            lemma_find_in_leaf_none(s, key, 0);
        }
    }
}

/// The point lookup agrees with the full scan: on a well-formed table B-tree,
/// looking up `key` yields exactly the row of the scan that carries `key`,
/// and `None` when no row does.
pub proof fn lemma_find_matches_scan(
    file: Seq<u8>,
    pno: int,
    lo: int,
    hi: int,
    key: u64,
    fuel: nat,
)
    requires
        wf_table(file, pno, lo, hi, fuel),
    ensures
        spec_scan(file, pno, fuel) is Ok,
        spec_find(file, pno, key, fuel) == Ok::<Option<SpecTableLeafCell>, DbError>(
            spec_find_in_leaf(spec_scan(file, pno, fuel)->Ok_0, key, 0),
        ),
    decreases fuel, 0int,
{
    lemma_wf_scan(file, pno, lo, hi, fuel);
    match spec_read_page(file, pno) {
        Ok(SpecPage::TableLeaf(p)) => {},
        Ok(SpecPage::TableInterior(p)) => {
            let fuel1 = (fuel - 1) as nat;
            let n = p.cells.len() as int;
            lemma_wf_scan_children(file, p.cells, lo, n, fuel1);
            lemma_find_route_correct(
                file,
                p.cells,
                p.header.right_most_pointer as int,
                lo,
                hi,
                key,
                0,
                fuel1,
            );
            lemma_scan_children_split(file, p.cells, 0, fuel1);
            assert(spec_scan_children(file, p.cells, n, fuel1)->Ok_0 =~= spec_scan_children_from(
                file,
                p.cells,
                0,
                fuel1,
            )->Ok_0);
        },
        _ => {},
    }
}

// ---------------------------------------------------------------------------
// Batched-lookup correctness
// ---------------------------------------------------------------------------

/// Whether a key sequence ascends strictly: the sorted form of a set of keys.
pub open spec fn strictly_sorted(keys: Seq<u64>) -> bool {
    forall|i: int, j: int| 0 <= i < j < keys.len() ==> keys[i] < keys[j]
}

/// The rows whose row ids occur among `keys`, in their original order.
pub open spec fn rows_matching(rows: Seq<SpecTableLeafCell>, keys: Seq<u64>) -> Seq<
    SpecTableLeafCell,
>
    decreases rows.len(),
{
    if rows.len() == 0 {
        Seq::empty()
    } else {
        let rest = rows_matching(rows.drop_first(), keys);
        if keys.contains(rows[0].row_id) {
            seq![rows[0]] + rest
        } else {
            rest
        }
    }
}

/// The matching rows of a concatenation are the matching rows of its parts.
proof fn lemma_rows_matching_add(a: Seq<SpecTableLeafCell>, b: Seq<SpecTableLeafCell>, keys: Seq<u64>)
    ensures
        rows_matching(a + b, keys) == rows_matching(a, keys) + rows_matching(b, keys),
    decreases a.len(),
{
    if a.len() == 0 {
        assert(a + b =~= b);
        assert(rows_matching(a, keys) + rows_matching(b, keys) =~= rows_matching(b, keys));
    } else {
        assert((a + b).drop_first() =~= a.drop_first() + b);
        lemma_rows_matching_add(a.drop_first(), b, keys);
        assert((a + b)[0] == a[0]);
        if keys.contains(a[0].row_id) {
            assert(seq![a[0]] + (rows_matching(a.drop_first(), keys) + rows_matching(b, keys))
                =~= (seq![a[0]] + rows_matching(a.drop_first(), keys)) + rows_matching(b, keys));
        }
    }
}

/// No row matches when no row id occurs among the keys.
proof fn lemma_rows_matching_none(rows: Seq<SpecTableLeafCell>, keys: Seq<u64>)
    requires
        forall|t: int| 0 <= t < rows.len() ==> !keys.contains(#[trigger] rows[t].row_id),
    ensures
        rows_matching(rows, keys) == Seq::<SpecTableLeafCell>::empty(),
    decreases rows.len(),
{
    if rows.len() > 0 {
        assert(forall|t: int|
            0 <= t < rows.drop_first().len() ==> rows.drop_first()[t] == rows[t + 1]);
        lemma_rows_matching_none(rows.drop_first(), keys);
    }
}

/// Two key sets that agree on every row id select the same rows.
proof fn lemma_rows_matching_keys_equiv(
    rows: Seq<SpecTableLeafCell>,
    keys1: Seq<u64>,
    keys2: Seq<u64>,
)
    requires
        forall|t: int|
            0 <= t < rows.len() ==> (keys1.contains(#[trigger] rows[t].row_id) <==> keys2.contains(
                rows[t].row_id,
            )),
    ensures
        rows_matching(rows, keys1) == rows_matching(rows, keys2),
    decreases rows.len(),
{
    if rows.len() > 0 {
        assert(forall|t: int|
            0 <= t < rows.drop_first().len() ==> rows.drop_first()[t] == rows[t + 1]);
        lemma_rows_matching_keys_equiv(rows.drop_first(), keys1, keys2);
    }
}

/// A row is selected exactly when it is a row and its row id is a key.
proof fn lemma_rows_matching_contains(
    rows: Seq<SpecTableLeafCell>,
    keys: Seq<u64>,
    c: SpecTableLeafCell,
)
    ensures
        rows_matching(rows, keys).contains(c) <==> (rows.contains(c) && keys.contains(c.row_id)),
    decreases rows.len(),
{
    if rows.len() == 0 {
    } else {
        lemma_rows_matching_contains(rows.drop_first(), keys, c);
        let rest = rows_matching(rows.drop_first(), keys);
        assert(rows.drop_first().contains(c) <==> (exists|t: int|
            1 <= t < rows.len() && rows[t] == c)) by {
            assert(forall|t: int|
                0 <= t < rows.drop_first().len() ==> #[trigger] rows.drop_first()[t] == rows[t
                    + 1]);
            if rows.drop_first().contains(c) {
                let t = choose|t: int|
                    0 <= t < rows.drop_first().len() && rows.drop_first()[t] == c;
                assert(rows[t + 1] == c);
            }
            if exists|t: int| 1 <= t < rows.len() && rows[t] == c {
                let t = choose|t: int| 1 <= t < rows.len() && rows[t] == c;
                assert(rows.drop_first()[t - 1] == c);
            }
        }
        if keys.contains(rows[0].row_id) {
            let m = seq![rows[0]] + rest;
            assert(m.contains(c) <==> (c == rows[0] || rest.contains(c))) by {
                assert(m[0] == rows[0]);
                assert(forall|t: int| 1 <= t < m.len() ==> #[trigger] m[t] == rest[t - 1]);
                if rest.contains(c) {
                    let t = choose|t: int| 0 <= t < rest.len() && rest[t] == c;
                    assert(m[t + 1] == c);
                }
            }
            assert(rows.contains(c) <==> (c == rows[0] || rows.drop_first().contains(c))) by {
                if rows.contains(c) {
                    let t = choose|t: int| 0 <= t < rows.len() && rows[t] == c;
                    if t >= 1 {
                        assert(rows.drop_first()[t - 1] == c);
                    }
                }
            }
        } else {
            assert(rows.contains(c) <==> (c == rows[0] || rows.drop_first().contains(c))) by {
                if rows.contains(c) {
                    let t = choose|t: int| 0 <= t < rows.len() && rows[t] == c;
                    if t >= 1 {
                        assert(rows.drop_first()[t - 1] == c);
                    }
                }
            }
        }
    }
}

/// Among rows with strictly ascending row ids, a key's row is unique, and the
/// linear search finds exactly it.
proof fn lemma_find_in_leaf_unique(rows: Seq<SpecTableLeafCell>, key: u64, i: int)
    requires
        0 <= i,
        forall|a: int, b: int|
            0 <= a < b < rows.len() ==> (#[trigger] rows[a].row_id) < (#[trigger] rows[b].row_id),
    ensures
        forall|c: SpecTableLeafCell|
            ((#[trigger] rows.contains(c)) && c.row_id == key && (exists|t: int|
                i <= t < rows.len() && rows[t] == c)) ==> spec_find_in_leaf(rows, key, i) == Some(
                c,
            ),
        (spec_find_in_leaf(rows, key, i) matches Some(c) ==> rows.contains(c) && c.row_id == key),
    decreases rows.len() - i,
{
    if i < rows.len() {
        lemma_find_in_leaf_unique(rows, key, i + 1);
        if rows[i].row_id == key {
            assert forall|c: SpecTableLeafCell|
                ((#[trigger] rows.contains(c)) && c.row_id == key && (exists|t: int|
                    i <= t < rows.len() && rows[t] == c)) implies spec_find_in_leaf(rows, key, i)
                == Some(c) by {
                let t = choose|t: int| i <= t < rows.len() && rows[t] == c;
                if t > i {
                    assert(rows[i].row_id < rows[t].row_id);
                }
            }
        }
    }
}

/// A suffix of the keys contains a value exactly when some key at or past the
/// cut does.
proof fn lemma_skip_contains(keys: Seq<u64>, k: int, x: u64)
    requires
        0 <= k <= keys.len(),
    ensures
        keys.skip(k).contains(x) <==> (exists|m: int| k <= m < keys.len() && keys[m] == x),
{
    if keys.skip(k).contains(x) {
        let j = choose|j: int| 0 <= j < keys.skip(k).len() && keys.skip(k)[j] == x;
        assert(keys[k + j] == x);
    }
    if exists|m: int| k <= m < keys.len() && keys[m] == x {
        let m = choose|m: int| k <= m < keys.len() && keys[m] == x;
        assert(keys.skip(k)[m - k] == x);
    }
}

/// The leaf merge is a filter: walking the cells from `j` and the ascending
/// keys from `k` together collects exactly the cells whose row ids occur in
/// the remaining keys; the cursor ends up past every key at or below the last
/// cell, and every unconsumed key is above every cell.
proof fn lemma_list_leaf_correct(
    cells: Seq<SpecTableLeafCell>,
    keys: Seq<u64>,
    j: int,
    k: int,
    lo: int,
    hi: int,
)
    requires
        rows_in_range_ascending(cells, lo, hi),
        strictly_sorted(keys),
        0 <= j <= cells.len(),
        0 <= k <= keys.len(),
    ensures
        ({
            let r = spec_list_leaf(cells, keys, j, k);
            &&& k <= r.0 <= keys.len()
            &&& r.1 == rows_matching(cells.skip(j), keys.skip(k))
            &&& forall|m: int, t: int|
                r.0 <= m < keys.len() && j <= t < cells.len() ==> (#[trigger] keys[m]) > (
                #[trigger] cells[t].row_id)
            &&& (r.0 > k ==> cells.len() > j && (forall|m: int|
                k <= m < r.0 ==> (#[trigger] keys[m]) <= cells[cells.len() - 1].row_id))
        }),
    decreases cells.len() - j + keys.len() - k,
{
    let r = spec_list_leaf(cells, keys, j, k);
    if j >= cells.len() || k >= keys.len() {
        if j >= cells.len() {
            assert(cells.skip(j) =~= Seq::<SpecTableLeafCell>::empty());
        } else {
            assert(keys.skip(k) =~= Seq::<u64>::empty());
            assert(forall|t: int|
                0 <= t < cells.skip(j).len() ==> !keys.skip(k).contains(
                    #[trigger] cells.skip(j)[t].row_id,
                ));
            lemma_rows_matching_none(cells.skip(j), keys.skip(k));
        }
    } else if cells[j].row_id < keys[k] {
        lemma_list_leaf_correct(cells, keys, j + 1, k, lo, hi);
        assert(!keys.skip(k).contains(cells[j].row_id)) by {
            lemma_skip_contains(keys, k, cells[j].row_id);
        }
        assert(cells.skip(j).drop_first() =~= cells.skip(j + 1));
        assert(cells.skip(j)[0] == cells[j]);
        assert(rows_matching(cells.skip(j), keys.skip(k)) == rows_matching(
            cells.skip(j + 1),
            keys.skip(k),
        ));
    } else if cells[j].row_id == keys[k] {
        lemma_list_leaf_correct(cells, keys, j + 1, k + 1, lo, hi);
        let r2 = spec_list_leaf(cells, keys, j + 1, k + 1);
        assert(keys.skip(k).contains(cells[j].row_id)) by {
            assert(keys.skip(k)[0] == keys[k]);
        }
        assert(cells.skip(j).drop_first() =~= cells.skip(j + 1));
        assert(cells.skip(j)[0] == cells[j]);
        assert(rows_matching(cells.skip(j), keys.skip(k)) == seq![cells[j]] + rows_matching(
            cells.skip(j + 1),
            keys.skip(k),
        ));
        assert(rows_matching(cells.skip(j + 1), keys.skip(k)) == rows_matching(
            cells.skip(j + 1),
            keys.skip(k + 1),
        )) by {
            assert forall|t: int| 0 <= t < cells.skip(j + 1).len() implies (keys.skip(k).contains(
                #[trigger] cells.skip(j + 1)[t].row_id,
            ) <==> keys.skip(k + 1).contains(cells.skip(j + 1)[t].row_id)) by {
                let rid = cells.skip(j + 1)[t].row_id;
                assert(cells.skip(j + 1)[t] == cells[j + 1 + t]);
                assert(cells[j].row_id < rid);
                lemma_skip_contains(keys, k, rid);
                lemma_skip_contains(keys, k + 1, rid);
            }
            lemma_rows_matching_keys_equiv(cells.skip(j + 1), keys.skip(k), keys.skip(k + 1));
        }
    } else {
        lemma_list_leaf_correct(cells, keys, j, k + 1, lo, hi);
        assert(rows_matching(cells.skip(j), keys.skip(k)) == rows_matching(
            cells.skip(j),
            keys.skip(k + 1),
        )) by {
            assert forall|t: int| 0 <= t < cells.skip(j).len() implies (keys.skip(k).contains(
                #[trigger] cells.skip(j)[t].row_id,
            ) <==> keys.skip(k + 1).contains(cells.skip(j)[t].row_id)) by {
                let rid = cells.skip(j)[t].row_id;
                assert(cells.skip(j)[t] == cells[j + t]);
                assert(keys[k] < cells[j].row_id);
                assert(cells[j].row_id <= rid);
                lemma_skip_contains(keys, k, rid);
                lemma_skip_contains(keys, k + 1, rid);
            }
            lemma_rows_matching_keys_equiv(cells.skip(j), keys.skip(k), keys.skip(k + 1));
        }
    }
}

/// The interior walk of the batched lookup from cell `i` is a filter over the
/// rows of the remaining subtrees, with the same cursor contract as the leaf
/// merge.
proof fn lemma_list_interior_correct(
    file: Seq<u8>,
    cells: Seq<TableBTreeInteriorCell>,
    rm: int,
    lo: int,
    hi: int,
    keys: Seq<u64>,
    i: int,
    k: int,
    fuel: nat,
)
    requires
        0 <= i <= cells.len(),
        0 <= k <= keys.len(),
        strictly_sorted(keys),
        wf_children(file, cells, lo, cells.len() as int, fuel),
        wf_table(file, rm, last_bound(cells, lo), hi, fuel),
        forall|a: int, b: int|
            0 <= a < b < cells.len() ==> (#[trigger] cells[a].row_id) < (
            #[trigger] cells[b].row_id),
        forall|a: int| 0 <= a < cells.len() ==> lo < (#[trigger] cells[a].row_id) <= hi,
    ensures
        spec_scan_children_from(file, cells, i, fuel) is Ok,
        spec_scan(file, rm, fuel) is Ok,
        spec_list_interior(file, cells, rm, keys, i, k, fuel) is Ok,
        ({
            let rows = spec_scan_children_from(file, cells, i, fuel)->Ok_0 + spec_scan(
                file,
                rm,
                fuel,
            )->Ok_0;
            let r = spec_list_interior(file, cells, rm, keys, i, k, fuel)->Ok_0;
            &&& k <= r.0 <= keys.len()
            &&& r.1 == rows_matching(rows, keys.skip(k))
            &&& forall|m: int, t: int|
                r.0 <= m < keys.len() && 0 <= t < rows.len() ==> (#[trigger] keys[m]) > (
                #[trigger] rows[t].row_id)
            &&& (r.0 > k ==> rows.len() > 0 && (forall|m: int|
                k <= m < r.0 ==> (#[trigger] keys[m]) <= rows[rows.len() - 1].row_id))
        }),
    decreases fuel, cells.len() - i + 1,
{
    let n = cells.len() as int;
    lemma_wf_scan_children_from(file, cells, lo, i, fuel);
    lemma_wf_scan(file, rm, last_bound(cells, lo), hi, fuel);
    let rmrows = spec_scan(file, rm, fuel)->Ok_0;
    let fromrows = spec_scan_children_from(file, cells, i, fuel)->Ok_0;
    let rows = fromrows + rmrows;
    if k >= keys.len() {
        assert(keys.skip(k) =~= Seq::<u64>::empty());
        assert(forall|t: int|
            0 <= t < rows.len() ==> !keys.skip(k).contains(#[trigger] rows[t].row_id));
        lemma_rows_matching_none(rows, keys.skip(k));
    } else if i == n {
        lemma_find_list_correct(file, rm, last_bound(cells, lo), hi, keys, k, fuel);
        assert(fromrows =~= Seq::<SpecTableLeafCell>::empty());
        assert(rows =~= rmrows);
    } else {
        lemma_wf_children_extract(file, cells, lo, n, fuel, i);
        lemma_wf_scan(
            file,
            cells[i].left_child_pointer as int,
            child_lo(cells, i, lo),
            cells[i].row_id as int,
            fuel,
        );
        lemma_wf_scan_children_from(file, cells, lo, i + 1, fuel);
        let s = spec_scan(file, cells[i].left_child_pointer as int, fuel)->Ok_0;
        let t2 = spec_scan_children_from(file, cells, i + 1, fuel)->Ok_0;
        let rest = t2 + rmrows;
        assert(rows =~= s + rest);
        lemma_rows_matching_add(s, rest, keys.skip(k));
        // every row of the later subtrees is above this cell's routing row id
        assert(forall|u: int|
            0 <= u < rest.len() ==> cells[i].row_id < (#[trigger] rest[u].row_id)) by {
            assert(forall|u: int| 0 <= u < t2.len() ==> #[trigger] rest[u] == t2[u]);
            assert(forall|u: int|
                t2.len() <= u < rest.len() ==> #[trigger] rest[u] == rmrows[u - t2.len()]);
            assert(cells[i].row_id <= last_bound(cells, lo));
        }
        if keys[k] > cells[i].row_id {
            lemma_list_interior_correct(file, cells, rm, lo, hi, keys, i + 1, k, fuel);
            assert(forall|u: int|
                0 <= u < s.len() ==> (#[trigger] s[u].row_id) <= cells[i].row_id);
            assert(forall|t: int|
                0 <= t < s.len() ==> !keys.skip(k).contains(#[trigger] s[t].row_id)) by {
                assert forall|t: int| 0 <= t < s.len() implies !keys.skip(k).contains(
                    #[trigger] s[t].row_id,
                ) by {
                    lemma_skip_contains(keys, k, s[t].row_id);
                }
            }
            lemma_rows_matching_none(s, keys.skip(k));
            let r = spec_list_interior(file, cells, rm, keys, i + 1, k, fuel)->Ok_0;
            assert(r.1 == rows_matching(rows, keys.skip(k))) by {
                assert(Seq::<SpecTableLeafCell>::empty() + rows_matching(rest, keys.skip(k))
                    =~= rows_matching(rest, keys.skip(k)));
            }
            assert forall|m: int, t: int|
                r.0 <= m < keys.len() && 0 <= t < rows.len() implies (#[trigger] keys[m]) > (
            #[trigger] rows[t].row_id) by {
                if t < s.len() {
                    assert(rows[t] == s[t]);
                    assert(keys[m] >= keys[k]);
                } else {
                    assert(rows[t] == rest[t - s.len()]);
                }
            }
            if r.0 > k {
                assert(rest.len() > 0);
                assert(rows.len() > 0);
                assert(rows[rows.len() - 1] == rest[rest.len() - 1]);
            }
        } else {
            // descend into the left child, then continue past this cell
            lemma_find_list_correct(
                file,
                cells[i].left_child_pointer as int,
                child_lo(cells, i, lo),
                cells[i].row_id as int,
                keys,
                k,
                fuel,
            );
            let sub = spec_find_list(file, cells[i].left_child_pointer as int, keys, k, fuel);
            let p1 = sub->Ok_0;
            lemma_list_interior_correct(file, cells, rm, lo, hi, keys, i + 1, p1.0, fuel);
            let next = spec_list_interior(file, cells, rm, keys, i + 1, p1.0, fuel);
            let q1 = next->Ok_0;
            // the keys the child consumed lie at or below its last row, hence
            // below every later row: the window shrink changes nothing there
            assert(rows_matching(rest, keys.skip(k)) == rows_matching(rest, keys.skip(p1.0))) by {
                assert forall|t: int| 0 <= t < rest.len() implies (keys.skip(k).contains(
                    #[trigger] rest[t].row_id,
                ) <==> keys.skip(p1.0).contains(rest[t].row_id)) by {
                    let rid = rest[t].row_id;
                    assert(cells[i].row_id < rid);
                    assert forall|m: int| k <= m < p1.0 implies (#[trigger] keys[m]) < rid by {
                        assert(keys[m] <= s[s.len() - 1].row_id);
                        assert(s[s.len() - 1].row_id <= cells[i].row_id);
                    }
                    lemma_skip_contains(keys, k, rid);
                    lemma_skip_contains(keys, p1.0, rid);
                }
                lemma_rows_matching_keys_equiv(rest, keys.skip(k), keys.skip(p1.0));
            }
            let r = spec_list_interior(file, cells, rm, keys, i, k, fuel)->Ok_0;
            assert(r.1 == p1.1 + q1.1);
            assert(r.1 == rows_matching(rows, keys.skip(k)));
            assert forall|m: int, t: int|
                r.0 <= m < keys.len() && 0 <= t < rows.len() implies (#[trigger] keys[m]) > (
            #[trigger] rows[t].row_id) by {
                if t < s.len() {
                    assert(rows[t] == s[t]);
                    assert(q1.0 >= p1.0);
                    assert(keys[m] > s[t].row_id);
                } else {
                    assert(rows[t] == rest[t - s.len()]);
                }
            }
            if r.0 > k {
                assert(rows.len() > 0) by {
                    if p1.0 > k {
                        assert(s.len() > 0);
                    } else {
                        assert(q1.0 > p1.0);
                        assert(rest.len() > 0);
                    }
                }
                assert forall|m: int| k <= m < r.0 implies (#[trigger] keys[m])
                    <= rows[rows.len() - 1].row_id by {
                    if rest.len() > 0 {
                        assert(rows[rows.len() - 1] == rest[rest.len() - 1]);
                        if m < p1.0 {
                            assert(keys[m] <= s[s.len() - 1].row_id);
                            assert(s[s.len() - 1].row_id <= cells[i].row_id);
                            assert(cells[i].row_id < rest[rest.len() - 1].row_id);
                        } else {
                            assert(keys[m] <= rest[rest.len() - 1].row_id);
                        }
                    } else {
                        assert(q1.0 == p1.0);
                        assert(m < p1.0);
                        assert(rows =~= s);
                        assert(keys[m] <= s[s.len() - 1].row_id);
                    }
                }
            }
        }
    }
}

/// The batched lookup on a well-formed subtree is a filter: it returns
/// exactly the subtree's rows whose row ids occur among the remaining keys,
/// it leaves the cursor past every key at or below the subtree's last row,
/// and every key it leaves behind is above every row.
proof fn lemma_find_list_correct(
    file: Seq<u8>,
    pno: int,
    lo: int,
    hi: int,
    keys: Seq<u64>,
    k: int,
    fuel: nat,
)
    requires
        wf_table(file, pno, lo, hi, fuel),
        strictly_sorted(keys),
        0 <= k <= keys.len(),
    ensures
        spec_scan(file, pno, fuel) is Ok,
        spec_find_list(file, pno, keys, k, fuel) is Ok,
        ({
            let rows = spec_scan(file, pno, fuel)->Ok_0;
            let r = spec_find_list(file, pno, keys, k, fuel)->Ok_0;
            &&& k <= r.0 <= keys.len()
            &&& r.1 == rows_matching(rows, keys.skip(k))
            &&& forall|m: int, t: int|
                r.0 <= m < keys.len() && 0 <= t < rows.len() ==> (#[trigger] keys[m]) > (
                #[trigger] rows[t].row_id)
            &&& (r.0 > k ==> rows.len() > 0 && (forall|m: int|
                k <= m < r.0 ==> (#[trigger] keys[m]) <= rows[rows.len() - 1].row_id))
        }),
    decreases fuel, 0int,
{
    lemma_wf_scan(file, pno, lo, hi, fuel);
    let rows = spec_scan(file, pno, fuel)->Ok_0;
    if k >= keys.len() {
        assert(keys.skip(k) =~= Seq::<u64>::empty());
        assert(forall|t: int|
            0 <= t < rows.len() ==> !keys.skip(k).contains(#[trigger] rows[t].row_id));
        lemma_rows_matching_none(rows, keys.skip(k));
    } else {
        match spec_read_page(file, pno) {
            Ok(SpecPage::TableLeaf(p)) => {
                lemma_list_leaf_correct(p.cells, keys, 0, k, lo, hi);
                assert(p.cells.skip(0) =~= p.cells);
            },
            Ok(SpecPage::TableInterior(p)) => {
                let fuel1 = (fuel - 1) as nat;
                let n = p.cells.len() as int;
                lemma_list_interior_correct(
                    file,
                    p.cells,
                    p.header.right_most_pointer as int,
                    lo,
                    hi,
                    keys,
                    0,
                    k,
                    fuel1,
                );
                lemma_wf_scan_children(file, p.cells, lo, n, fuel1);
                lemma_scan_children_split(file, p.cells, 0, fuel1);
                assert(spec_scan_children(file, p.cells, n, fuel1)->Ok_0
                    =~= spec_scan_children_from(file, p.cells, 0, fuel1)->Ok_0);
            },
            _ => {},
        }
    }
}

/// The batched-lookup equivalence law: on a well-formed table B-tree, the
/// batched lookup over a sorted set of keys returns exactly the cells that
/// the single-key point lookups of those keys return - the same set, with no
/// key served twice and none dropped.
pub proof fn lemma_batched_lookup_equivalence(
    file: Seq<u8>,
    root: int,
    lo: int,
    hi: int,
    keys: Seq<u64>,
    fuel: nat,
)
    requires
        wf_table(file, root, lo, hi, fuel),
        strictly_sorted(keys),
    ensures
        spec_find_list(file, root, keys, 0, fuel) is Ok,
        forall|c: SpecTableLeafCell|
            #[trigger] spec_find_list(file, root, keys, 0, fuel)->Ok_0.1.contains(c)
                <==> (exists|m: int|
                0 <= m < keys.len() && spec_find(file, root, keys[m], fuel) == Ok::<
                    Option<SpecTableLeafCell>,
                    DbError,
                >(Some(c))),
{
    lemma_wf_scan(file, root, lo, hi, fuel);
    lemma_find_list_correct(file, root, lo, hi, keys, 0, fuel);
    let rows = spec_scan(file, root, fuel)->Ok_0;
    let res = spec_find_list(file, root, keys, 0, fuel)->Ok_0;
    assert(keys.skip(0) =~= keys);
    assert forall|c: SpecTableLeafCell| #[trigger] res.1.contains(c) <==> (exists|m: int|
        0 <= m < keys.len() && spec_find(file, root, keys[m], fuel) == Ok::<
            Option<SpecTableLeafCell>,
            DbError,
        >(Some(c))) by {
        lemma_rows_matching_contains(rows, keys, c);
        lemma_find_in_leaf_unique(rows, c.row_id, 0);
        if res.1.contains(c) {
            let m = choose|m: int| 0 <= m < keys.len() && keys[m] == c.row_id;
            lemma_find_matches_scan(file, root, lo, hi, keys[m], fuel);
            let t = choose|t: int| 0 <= t < rows.len() && rows[t] == c;
            assert(spec_find_in_leaf(rows, keys[m], 0) == Some(c));
            assert(spec_find(file, root, keys[m], fuel) == Ok::<
                Option<SpecTableLeafCell>,
                DbError,
            >(Some(c)));
        }
        if exists|m: int|
            0 <= m < keys.len() && spec_find(file, root, keys[m], fuel) == Ok::<
                Option<SpecTableLeafCell>,
                DbError,
            >(Some(c)) {
            let m = choose|m: int|
                0 <= m < keys.len() && spec_find(file, root, keys[m], fuel) == Ok::<
                    Option<SpecTableLeafCell>,
                    DbError,
                >(Some(c));
            lemma_find_matches_scan(file, root, lo, hi, keys[m], fuel);
            assert(spec_find_in_leaf(rows, keys[m], 0) == Some(c));
            lemma_find_in_leaf_unique(rows, keys[m], 0);
            assert(rows.contains(c) && c.row_id == keys[m]);
            assert(keys.contains(c.row_id));
        }
    }
}

/// The full-scan ordering law: for any well-formed table B-tree, the scan
/// succeeds and its output row ids are strictly ascending.
pub proof fn lemma_scan_row_ids_ascending(file: Seq<u8>, root: int, lo: int, hi: int, fuel: nat)
    requires
        wf_table(file, root, lo, hi, fuel),
    ensures
        spec_scan(file, root, fuel) is Ok,
        forall|i: int, j: int|
            0 <= i < j < spec_scan(file, root, fuel)->Ok_0.len() ==> (#[trigger] spec_scan(
                file,
                root,
                fuel,
            )->Ok_0[i].row_id) < (#[trigger] spec_scan(file, root, fuel)->Ok_0[j].row_id),
{
    lemma_wf_scan(file, root, lo, hi, fuel);
}

/// Sorting a sequence of pairwise distinct keys - a set of keys - yields a
/// strictly ascending sequence, the form the batched-lookup law speaks of.
pub proof fn lemma_spec_sort_strict(s: Seq<u64>)
    requires
        forall|i: int, j: int| 0 <= i < j < s.len() ==> s[i] != s[j],
    ensures
        strictly_sorted(crate::btree::spec_sort(s)),
        crate::btree::spec_sort(s).to_multiset() == s.to_multiset(),
        crate::btree::spec_sort(s).len() == s.len(),
{
    broadcast use vstd::multiset::group_multiset_axioms;

    crate::btree::lemma_spec_sort_ensures(s);
    let r = crate::btree::spec_sort(s);
    assert(s.no_duplicates());
    s.lemma_multiset_has_no_duplicates();
    r.lemma_multiset_has_no_duplicates_conv();
    assert forall|i: int, j: int| 0 <= i < j < r.len() implies r[i] < r[j] by {
        assert(r[i] <= r[j]);
    }
}

} // verus!
