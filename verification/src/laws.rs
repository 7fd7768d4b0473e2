//! What holds of the table across its operations.
use crate::bytes::be_u32;
use crate::constants::{PAGE_SIZE, ROW_SIZE, TABLE_MAX_PAGES};
use crate::cursor::{advanced, found_at, height_le, is_leaf_lower_bound, leaf_keys_sorted, reaches, same_tree, CursorView};
use crate::errors::ExecuteError;
use crate::node::{
    is_leaf, leaf_cell, leaf_cell_offset, leaf_key, leaf_num_cells, leaf_value, next_leaf,
    LEAF_NODE_CELL_SIZE, LEAF_NODE_KEY_SIZE, LEAF_NODE_MAX_CELLS, LEAF_NODE_VALUE_SIZE,
};
use crate::row::{lemma_row_roundtrip, Row};
use crate::node::{cell_child, internal_key, num_keys, right_child};
use crate::table::{children_lines, first_at_least, internal_split_mid, internal_split_outcome, old_entries, split_entries, tree_lines, TableError, TreeLine};
use crate::node::{parent_of, root_flag, INTERNAL_NODE_MAX_CELLS};
use crate::table::{
    cached_below, flushed_pages, cell_bytes, children_kept, file_page, is_child_at, leaf_insert_outcome, leaf_inserted, lemma_same_but_parent_leaf,
    merged_cells, node_ok, same_but_parent, split_outcome, storage_ok, tree_usable, PagerView,
};
use crate::constants::{COLUMN_EMAIL_SIZE, COLUMN_USERNAME_SIZE};
use crate::errors::PrepareError;
use crate::row::padded;
use crate::vm::{insert_keyword, parse_i64, prepared_insert, split_ws};
use crate::vm::{insert_executed, insert_table_result, rows_read, scan_from, select_executed, MAX_SCAN};
use vstd::prelude::*;

verus! {

/// Decoding the bytes that encode a row gives the same row back.
pub proof fn row_decodes_to_itself(row: Row, bytes: Seq<u8>, back: Row)
    requires
        row.wf(),
        bytes == row.spec_bytes(),
        back.spec_bytes() == bytes.take(ROW_SIZE as int),
        back.wf(),
    ensures
        back.id == row.id,
        back.username@ == row.username@,
        back.email@ == row.email@,
{
    lemma_row_roundtrip(row.id, row.username@, row.email@);
    lemma_row_roundtrip(back.id, back.username@, back.email@);
    assert(bytes.take(ROW_SIZE as int) =~= bytes);
}

/// The key of a leaf cell is the first four bytes of the cell.
pub proof fn lemma_key_of_cell(p: Seq<u8>, i: int)
    requires
        p.len() == PAGE_SIZE,
        0 <= i < LEAF_NODE_MAX_CELLS,
    ensures
        leaf_key(p, i) == be_u32(leaf_cell(p, i), 0),
        leaf_value(p, i) == leaf_cell(p, i).subrange(LEAF_NODE_KEY_SIZE as int, LEAF_NODE_CELL_SIZE as int),
{
    let c = leaf_cell(p, i);
    let o = leaf_cell_offset(i);
    assert(c[0] == p[o] && c[1] == p[o + 1] && c[2] == p[o + 2] && c[3] == p[o + 3]);
    assert(leaf_value(p, i) =~= c.subrange(LEAF_NODE_KEY_SIZE as int, LEAF_NODE_CELL_SIZE as int));
}

/// The key and the value of a cell built from them.
pub proof fn lemma_cell_bytes_parts(key: u32, value: Seq<u8>)
    requires
        value.len() == LEAF_NODE_VALUE_SIZE,
    ensures
        be_u32(cell_bytes(key, value), 0) == key,
        cell_bytes(key, value).subrange(LEAF_NODE_KEY_SIZE as int, LEAF_NODE_CELL_SIZE as int) == value,
{
    crate::bytes::lemma_be_roundtrip(key);
    let c = cell_bytes(key, value);
    let k = crate::bytes::be_bytes(key);
    assert(c[0] == k[0] && c[1] == k[1] && c[2] == k[2] && c[3] == k[3]);
    assert(c.subrange(LEAF_NODE_KEY_SIZE as int, LEAF_NODE_CELL_SIZE as int) =~= value);
}

/// The keys and the new value of a leaf after an insertion.
pub proof fn lemma_inserted_keys(a: Seq<u8>, b: Seq<u8>, cell: int, key: u32, value: Seq<u8>)
    requires
        a.len() == PAGE_SIZE,
        0 <= cell <= leaf_num_cells(a) < LEAF_NODE_MAX_CELLS,
        value.len() == LEAF_NODE_VALUE_SIZE,
        leaf_inserted(a, b, cell, cell_bytes(key, value)),
    ensures
        leaf_num_cells(b) == leaf_num_cells(a) + 1,
        leaf_key(b, cell) == key,
        leaf_value(b, cell) == value,
        forall|i: int| 0 <= i < cell ==> #[trigger] leaf_key(b, i) == leaf_key(a, i),
        forall|i: int| cell < i <= leaf_num_cells(a) ==> #[trigger] leaf_key(b, i) == leaf_key(a, i - 1),
{
    let n = leaf_num_cells(a) as int;
    lemma_key_of_cell(b, cell);
    lemma_cell_bytes_parts(key, value);
    assert forall|i: int| 0 <= i < cell implies #[trigger] leaf_key(b, i) == leaf_key(a, i) by {
        lemma_key_of_cell(b, i);
        lemma_key_of_cell(a, i);
    }
    assert forall|i: int| cell < i <= n implies #[trigger] leaf_key(b, i) == leaf_key(a, i - 1) by {
        lemma_key_of_cell(b, i);
        lemma_key_of_cell(a, i - 1);
    }
}

/// Keys sorted before an insertion at the place the search stops are sorted after it.
proof fn lemma_sorted_after_insert(a: Seq<u8>, b: Seq<u8>, cell: int, key: u32)
    requires
        leaf_keys_sorted(a),
        is_leaf_lower_bound(a, key, cell),
        !(cell < leaf_num_cells(a) && leaf_key(a, cell) == key),
        leaf_num_cells(b) == leaf_num_cells(a) + 1,
        leaf_key(b, cell) == key,
        forall|i: int| 0 <= i < cell ==> #[trigger] leaf_key(b, i) == leaf_key(a, i),
        forall|i: int| cell < i <= leaf_num_cells(a) ==> #[trigger] leaf_key(b, i) == leaf_key(a, i - 1),
    ensures
        leaf_keys_sorted(b),
{
    let n = leaf_num_cells(a) as int;
    if cell < n {
        assert(leaf_key(a, cell) > key);
    }
    assert forall|i: int, j: int| 0 <= i < j < leaf_num_cells(b) implies leaf_key(b, i) < leaf_key(b, j) by {
        if j < cell {
            assert(leaf_key(b, i) == leaf_key(a, i) && leaf_key(b, j) == leaf_key(a, j));
        } else if j == cell {
            assert(leaf_key(b, i) == leaf_key(a, i));
            assert(leaf_key(a, i) < key);
        } else if i < cell {
            assert(leaf_key(b, i) == leaf_key(a, i) && leaf_key(a, i) < key);
            assert(leaf_key(b, j) == leaf_key(a, j - 1));
            if cell < j - 1 {
                assert(leaf_key(a, cell) < leaf_key(a, j - 1));
            }
        } else if i == cell {
            assert(leaf_key(b, j) == leaf_key(a, j - 1));
            if cell < j - 1 {
                assert(leaf_key(a, cell) < leaf_key(a, j - 1));
            }
        } else {
            assert(leaf_key(b, i) == leaf_key(a, i - 1) && leaf_key(b, j) == leaf_key(a, j - 1));
        }
    }
}

/// Inserting a key, with its value, at the cell where the search for it stops, into a leaf
/// with room whose keys are sorted and which does not hold the key, keeps the keys sorted:
/// the keys below that cell stay, the new key and value stand at it, and the keys from it on
/// move one place up.
pub proof fn insertion_keeps_leaf_sorted(a: Seq<u8>, b: Seq<u8>, cell: int, key: u32, value: Seq<u8>)
    requires
        a.len() == PAGE_SIZE,
        leaf_num_cells(a) < LEAF_NODE_MAX_CELLS,
        value.len() == LEAF_NODE_VALUE_SIZE,
        leaf_keys_sorted(a),
        is_leaf_lower_bound(a, key, cell),
        !(cell < leaf_num_cells(a) && leaf_key(a, cell) == key),
        leaf_inserted(a, b, cell, cell_bytes(key, value)),
    ensures
        leaf_keys_sorted(b),
        leaf_num_cells(b) == leaf_num_cells(a) + 1,
        leaf_key(b, cell) == key,
        leaf_value(b, cell) == value,
        forall|i: int| 0 <= i < cell ==> #[trigger] leaf_key(b, i) == leaf_key(a, i),
        forall|i: int| cell < i <= leaf_num_cells(a) ==> #[trigger] leaf_key(b, i) == leaf_key(a, i - 1),
{
    lemma_inserted_keys(a, b, cell, key, value);
    lemma_sorted_after_insert(a, b, cell, key);
}

/// In a leaf whose keys are sorted, the search for a key that some cell holds stops at that
/// cell.
pub proof fn search_finds_present_key(p: Seq<u8>, key: u32, r: int, cell: int)
    requires
        leaf_keys_sorted(p),
        is_leaf_lower_bound(p, key, r),
        0 <= cell < leaf_num_cells(p),
        leaf_key(p, cell) == key,
    ensures
        r == cell,
{
    if r < cell {
        assert(leaf_key(p, r) < leaf_key(p, cell));
    }
    if r > cell {
        assert(leaf_key(p, cell) < key);
    }
}

/// A search from a root that is a leaf stays at the root.
pub proof fn lemma_root_leaf_search(pages: Seq<Seq<u8>>, key: u32, c: CursorView)
    requires
        is_leaf(pages[0]),
        found_at(pages, 0, key, c, TABLE_MAX_PAGES as nat),
    ensures
        c.page_num == 0,
{
}

/// In a table whose root is a leaf with room and with sorted keys, a successful insertion of
/// a row keeps the keys sorted, and a later search for the row's id stops at the cell that
/// holds the row.
pub proof fn inserted_row_is_found(v: PagerView, w: PagerView, row: Row, r: Result<(), ExecuteError>, c2: CursorView)
    requires
        tree_usable(v),
        is_leaf(v.pages[0]),
        leaf_num_cells(v.pages[0]) < LEAF_NODE_MAX_CELLS,
        leaf_keys_sorted(v.pages[0]),
        row.wf(),
        insert_executed(v, w, row, r),
        r is Ok,
        found_at(w.pages, 0, row.id, c2, TABLE_MAX_PAGES as nat),
    ensures
        leaf_keys_sorted(w.pages[0]),
        c2.page_num == 0,
        leaf_key(w.pages[0], c2.cell_num as int) == row.id,
        leaf_value(w.pages[0], c2.cell_num as int) == row.spec_bytes(),
{
    let (c, v1) = choose|c: CursorView, v1: PagerView| #[trigger] found_at(v.pages, 0, row.id, c, TABLE_MAX_PAGES as nat)
        && #[trigger] same_tree(v, v1)
        && leaf_insert_outcome(v1, w, c.page_num as int, c.cell_num as int, row.id, row.spec_bytes(),
            insert_table_result(r, row.id));
    lemma_root_leaf_search(v.pages, row.id, c);
    let a = v.pages[0];
    let cell = c.cell_num as int;
    crate::row::lemma_row_roundtrip(row.id, row.username@, row.email@);
    assert(!(cell < leaf_num_cells(a) && leaf_key(a, cell) == row.id));
    let b = w.pages[0];
    assert(leaf_inserted(a, b, cell, cell_bytes(row.id, row.spec_bytes())));
    insertion_keeps_leaf_sorted(a, b, cell, row.id, row.spec_bytes());
    assert(b[0] == a[0]);
    lemma_root_leaf_search(w.pages, row.id, c2);
    search_finds_present_key(b, row.id, c2.cell_num as int, cell);
}

/// An insertion refused as a duplicate leaves the pages as they were. Inserting a row whose
/// id is already held by the leaf that the search for it reaches, when that leaf's keys are
/// sorted and every path down from the root ends in a leaf, is refused as a duplicate,
/// however full that leaf is; in particular so when the root is a leaf with sorted keys that
/// holds the id.
pub proof fn duplicate_insert_is_refused(v: PagerView, w: PagerView, row: Row, r: Result<(), ExecuteError>)
    requires
        tree_usable(v),
        row.wf(),
        insert_executed(v, w, row, r),
    ensures
        r matches Err(ExecuteError::DuplicateKey) ==> same_tree(v, w),
        height_le(v.pages, 0, TABLE_MAX_PAGES as nat)
            && (forall|c: CursorView| #[trigger] found_at(v.pages, 0, row.id, c, TABLE_MAX_PAGES as nat) ==> {
                &&& leaf_keys_sorted(v.pages[c.page_num as int])
                &&& exists|i: int| 0 <= i < leaf_num_cells(v.pages[c.page_num as int])
                    && #[trigger] leaf_key(v.pages[c.page_num as int], i) == row.id
            })
            ==> r == Err::<(), ExecuteError>(ExecuteError::DuplicateKey) && same_tree(v, w),
        is_leaf(v.pages[0]) && leaf_keys_sorted(v.pages[0])
            && (exists|i: int| 0 <= i < leaf_num_cells(v.pages[0]) && #[trigger] leaf_key(v.pages[0], i) == row.id)
            ==> r == Err::<(), ExecuteError>(ExecuteError::DuplicateKey) && same_tree(v, w),
{
    if !(r matches Err(ExecuteError::CursorError(crate::cursor::CursorError::TableError(crate::table::TableError::NodeNotFound(_))))) {
        let (c, v1) = choose|c: CursorView, v1: PagerView| #[trigger] found_at(v.pages, 0, row.id, c, TABLE_MAX_PAGES as nat)
            && #[trigger] same_tree(v, v1)
            && leaf_insert_outcome(v1, w, c.page_num as int, c.cell_num as int, row.id, row.spec_bytes(),
                insert_table_result(r, row.id));
        crate::cursor::lemma_reaches_in_use(v, 0, c.page_num as int, row.id, TABLE_MAX_PAGES as nat);
        let p = v.pages[c.page_num as int];
        assert(crate::table::node_ok(v.pages, v.num_pages, c.page_num as int));
        let pg = c.page_num as int;
        if leaf_keys_sorted(p) && (exists|i: int| 0 <= i < leaf_num_cells(p) && #[trigger] leaf_key(p, i) == row.id) {
            let i = choose|i: int| 0 <= i < leaf_num_cells(p) && #[trigger] leaf_key(p, i) == row.id;
            search_finds_present_key(p, row.id, c.cell_num as int, i);
        }
        if is_leaf(v.pages[0]) {
            lemma_root_leaf_search(v.pages, row.id, c);
        }
    } else {
        if is_leaf(v.pages[0]) {
            assert(height_le(v.pages, 0, TABLE_MAX_PAGES as nat));
        }
    }
}

/// Reopening a file that holds, from `p * PAGE_SIZE` on, the bytes that a flush writes for
/// page `p` gives page `p` back.
pub proof fn flushed_page_reads_back(v: PagerView, file: Seq<u8>, p: int)
    requires
        storage_ok(v),
        0 <= p < TABLE_MAX_PAGES,
        file.len() >= (p + 1) * PAGE_SIZE,
        file.subrange(p * PAGE_SIZE, (p + 1) * PAGE_SIZE) == v.pages[p],
    ensures
        file_page(file, p) == v.pages[p],
{
    assert forall|i: int| 0 <= i < PAGE_SIZE implies #[trigger] file_page(file, p)[i] == v.pages[p][i] by {
        assert(file.subrange(p * PAGE_SIZE, (p + 1) * PAGE_SIZE)[i] == file[p * PAGE_SIZE + i]);
    }
    assert(file_page(file, p) =~= v.pages[p]);
}

/// A scan of a leaf with no next leaf, from a cell of it, reads that cell and the ones after
/// it, in order.
pub proof fn lemma_scan_leaf(pages: Seq<Seq<u8>>, page: nat, i: nat, fuel: nat)
    requires
        is_leaf(pages[page as int]),
        next_leaf(pages[page as int]) == 0,
        i < leaf_num_cells(pages[page as int]),
        leaf_num_cells(pages[page as int]) - i <= fuel,
    ensures
        scan_from(pages, CursorView { page_num: page, cell_num: i, end_of_table: false }, fuel)
            == Some(Seq::new((leaf_num_cells(pages[page as int]) - i) as nat,
                |k: int| CursorView { page_num: page, cell_num: (i + k) as nat, end_of_table: false })),
    decreases leaf_num_cells(pages[page as int]) - i,
{
    let n = leaf_num_cells(pages[page as int]) as int;
    let c = CursorView { page_num: page, cell_num: i, end_of_table: false };
    let want = Seq::new((n - i) as nat, |k: int| CursorView { page_num: page, cell_num: (i + k) as nat, end_of_table: false });
    if i + 1 >= n {
        assert(advanced(pages, c).end_of_table);
        assert(scan_from(pages, advanced(pages, c), (fuel - 1) as nat) == Some(Seq::<CursorView>::empty()));
        assert(seq![c] + Seq::<CursorView>::empty() =~= want);
    } else {
        lemma_scan_leaf(pages, page, i + 1, (fuel - 1) as nat);
        let rest = Seq::new((n - (i + 1)) as nat, |k: int| CursorView { page_num: page, cell_num: (i + 1 + k) as nat, end_of_table: false });
        assert(advanced(pages, c) == CursorView { page_num: page, cell_num: i + 1, end_of_table: false });
        assert(seq![c] + rest =~= want);
    }
}

/// In a table whose root is a leaf with sorted keys and no next leaf, a select succeeds and
/// gives the rows of every cell of the root, in the order of the cells, that is in
/// increasing order of key.
pub proof fn select_reads_root_leaf_in_order(v: PagerView, r: Result<Vec<Row>, ExecuteError>)
    requires
        tree_usable(v),
        is_leaf(v.pages[0]),
        next_leaf(v.pages[0]) == 0,
        leaf_keys_sorted(v.pages[0]),
        select_executed(v, r),
    ensures
        r is Ok,
        r->Ok_0@.len() == leaf_num_cells(v.pages[0]),
        forall|i: int| 0 <= i < leaf_num_cells(v.pages[0]) ==> #[trigger] r->Ok_0@[i].spec_bytes() == leaf_value(v.pages[0], i),
{
    let root = v.pages[0];
    let n = leaf_num_cells(root) as int;
    assert(crate::table::node_ok(v.pages, v.num_pages, 0));
    let want = Seq::new(n as nat, |k: int| CursorView { page_num: 0, cell_num: k as nat, end_of_table: false });
    assert forall|c: CursorView| #[trigger] found_at(v.pages, 0, 0, c, TABLE_MAX_PAGES as nat) implies
        scan_from(v.pages, c, MAX_SCAN as nat) == (if n == 0 { Some(Seq::<CursorView>::empty()) } else { Some(want) }) by {
        lemma_root_leaf_search(v.pages, 0, c);
        if n > 0 {
            if c.cell_num > 0 {
                assert(leaf_key(root, 0) < 0);
            }
            lemma_scan_leaf(v.pages, 0, 0, MAX_SCAN as nat);
            assert(c == CursorView { page_num: 0, cell_num: 0, end_of_table: false });
            assert(Seq::new((n - 0) as nat, |k: int| CursorView { page_num: 0, cell_num: (0 + k) as nat, end_of_table: false }) =~= want);
        }
    }
    assert(height_le(v.pages, 0, TABLE_MAX_PAGES as nat));
    let rows = r->Ok_0;
    let c = choose|c: CursorView| #[trigger] found_at(v.pages, 0, 0, c, TABLE_MAX_PAGES as nat)
        && scan_from(v.pages, c, MAX_SCAN as nat) is Some
        && rows_read(v.pages, rows@, scan_from(v.pages, c, MAX_SCAN as nat)->Some_0);
    assert forall|i: int| 0 <= i < n implies #[trigger] rows@[i].spec_bytes() == leaf_value(root, i) by {
        assert(want[i].cell_num == i);
    }
}

/// Cell `i` of leaf page `p`, a page in use of `v`, holds the bytes `c`.
pub open spec fn stored_at(v: PagerView, c: Seq<u8>, p: int, i: int) -> bool {
    &&& 0 <= p < v.num_pages
    &&& is_leaf(v.pages[p])
    &&& 0 <= i < leaf_num_cells(v.pages[p])
    &&& leaf_cell(v.pages[p], i) == c
}

/// Some cell of a leaf in use of `v` holds the bytes `c`.
pub open spec fn stored(v: PagerView, c: Seq<u8>) -> bool {
    exists|p: int, i: int| #[trigger] stored_at(v, c, p, i)
}

/// Where a cell of a leaf that was split ends up.
proof fn lemma_split_places_cell(pages: Seq<Seq<u8>>, n: nat, w: PagerView, page: int, cell: int, nc: Seq<u8>, k: int, r: Result<(), crate::table::TableError>)
    requires
        split_outcome(pages, n, w, page, cell, nc, r),
        r is Ok,
        0 <= page,
        0 <= k <= LEAF_NODE_MAX_CELLS,
    ensures
        stored(w, merged_cells(pages[page], cell, nc)[k]),
{
    let a = pages[page];
    let m = merged_cells(a, cell, nc);
    let right = n as int;
    let left = crate::table::split_left(a, n, page);
    if k < 7 {
        assert(leaf_cell(w.pages[left], k) == m[k]);
        assert(stored_at(w, m[k], left, k));
    } else {
        assert(leaf_cell(w.pages[right], k - 7) == m[k - 7 + 7]);
        assert(stored_at(w, m[k], right, k - 7));
    }
}

/// A leaf insertion that succeeds stores the new cell and keeps every cell stored before.
proof fn lemma_leaf_insert_stores(v: PagerView, v1: PagerView, w: PagerView, page: int, cell: int, key: u32, value: Seq<u8>, r: Result<(), crate::table::TableError>)
    requires
        tree_usable(v),
        same_tree(v, v1),
        0 <= page < v.num_pages,
        is_leaf(v.pages[page]),
        0 <= cell <= leaf_num_cells(v.pages[page]),
        value.len() == LEAF_NODE_VALUE_SIZE,
        leaf_insert_outcome(v1, w, page, cell, key, value, r),
        r is Ok,
    ensures
        stored(w, cell_bytes(key, value)),
        forall|c: Seq<u8>| stored(v, c) ==> stored(w, c),
{
    let a = v.pages[page];
    let n = leaf_num_cells(a) as int;
    let nc = cell_bytes(key, value);
    assert(node_ok(v.pages, v.num_pages, page));
    if n < LEAF_NODE_MAX_CELLS {
        let b = w.pages[page];
        assert(b[0] == a[0]);
        assert(stored_at(w, nc, page, cell));
        assert forall|c: Seq<u8>| stored(v, c) implies stored(w, c) by {
            let (p, i) = choose|p: int, i: int| #[trigger] stored_at(v, c, p, i);
            if p != page {
                assert(w.pages[p] == v.pages[p]);
                assert(stored_at(w, c, p, i));
            } else if i < cell {
                assert(stored_at(w, c, p, i));
            } else {
                assert(leaf_cell(b, i + 1) == leaf_cell(a, i));
                assert(stored_at(w, c, p, i + 1));
            }
        }
    } else {
        let m = merged_cells(a, cell, nc);
        assert(split_outcome(v.pages, v.num_pages, w, page, cell, nc, r));
        assert(crate::table::leaves_kept(v.pages, v.num_pages, w, set![page]));
        lemma_split_places_cell(v.pages, v.num_pages, w, page, cell, nc, cell, r);
        assert forall|c: Seq<u8>| stored(v, c) implies stored(w, c) by {
            let (p, i) = choose|p: int, i: int| #[trigger] stored_at(v, c, p, i);
            if p != page {
                assert(!set![page].contains(p));
                assert(0 <= p < v.num_pages && is_leaf(v.pages[p]));
                assert(crate::table::leaves_kept(v.pages, v.num_pages, w, set![page]));
                assert(same_but_parent(v.pages[p], w.pages[p]));
                assert(is_leaf(w.pages[p]));
                lemma_same_but_parent_leaf(v.pages[p], w.pages[p]);
                assert(node_ok(v.pages, v.num_pages, p));
                assert(stored_at(w, c, p, i));
            } else if i < cell {
                assert(m[i] == c);
                lemma_split_places_cell(v.pages, v.num_pages, w, page, cell, nc, i, r);
            } else {
                assert(m[i + 1] == c);
                lemma_split_places_cell(v.pages, v.num_pages, w, page, cell, nc, i + 1, r);
            }
        }
    }
}

/// A successful insertion stores the row, under its id, in a cell of a leaf in use, and
/// every cell stored before is still stored: no row is lost.
pub proof fn insert_stores_row_and_keeps_rows(v: PagerView, w: PagerView, row: Row, r: Result<(), ExecuteError>)
    requires
        tree_usable(v),
        row.wf(),
        insert_executed(v, w, row, r),
        r is Ok,
    ensures
        stored(w, cell_bytes(row.id, row.spec_bytes())),
        forall|c: Seq<u8>| stored(v, c) ==> stored(w, c),
{
    let (c, v1) = choose|c: CursorView, v1: PagerView| #[trigger] found_at(v.pages, 0, row.id, c, TABLE_MAX_PAGES as nat)
        && #[trigger] same_tree(v, v1)
        && leaf_insert_outcome(v1, w, c.page_num as int, c.cell_num as int, row.id, row.spec_bytes(),
            insert_table_result(r, row.id));
    crate::cursor::lemma_reaches_in_use(v, 0, c.page_num as int, row.id, TABLE_MAX_PAGES as nat);
    crate::row::lemma_row_roundtrip(row.id, row.username@, row.email@);
    lemma_leaf_insert_stores(v, v1, w, c.page_num as int, c.cell_num as int, row.id, row.spec_bytes(), insert_table_result(r, row.id));
}

/// A node is usable the same way in two page sets that agree on the pages in use.
proof fn lemma_node_ok_same_prefix(v: Seq<Seq<u8>>, w: Seq<Seq<u8>>, n: nat, p: int)
    requires
        node_ok(v, n, p),
        0 <= p < n,
        forall|q: int| 0 <= q < n ==> #[trigger] w[q] == v[q],
    ensures
        node_ok(w, n, p),
{
    let pg = v[p];
    assert(w[p] == pg);
    if !crate::node::root_flag(pg) {
        assert(w[crate::node::parent_of(pg) as int] == v[crate::node::parent_of(pg) as int]);
    }
    if is_leaf(pg) && next_leaf(pg) != 0 {
        assert(w[next_leaf(pg) as int] == v[next_leaf(pg) as int]);
    }
    if crate::node::is_internal(pg) {
        assert forall|k: int| 0 <= k <= crate::node::num_keys(pg) implies
            crate::table::child_ok(n, p, #[trigger] crate::node::child_at(w[p], k)) by {
            assert(crate::table::child_ok(n, p, crate::node::child_at(pg, k)));
        }
    }
}

/// Reopening a file that holds, each at its place, all the pages in use of a table gives the
/// same pages in use; a usable tree comes back usable.
pub proof fn reopened_table_has_flushed_pages(v: PagerView, file: Seq<u8>, w: PagerView)
    requires
        storage_ok(v),
        1 <= v.num_pages <= TABLE_MAX_PAGES,
        file.len() == v.num_pages * PAGE_SIZE,
        forall|p: int| 0 <= p < v.num_pages ==> #[trigger] file.subrange(p * PAGE_SIZE, (p + 1) * PAGE_SIZE) == v.pages[p],
        storage_ok(w),
        w.num_pages == file.len() / (PAGE_SIZE as nat),
        forall|p: int| 0 <= p < TABLE_MAX_PAGES ==> #[trigger] w.pages[p] == file_page(file, p),
    ensures
        w.num_pages == v.num_pages,
        forall|p: int| 0 <= p < v.num_pages ==> #[trigger] w.pages[p] == v.pages[p],
        tree_usable(v) ==> tree_usable(w),
{
    assert(w.num_pages == v.num_pages) by (nonlinear_arith)
        requires
            w.num_pages == file.len() / (PAGE_SIZE as nat),
            file.len() == v.num_pages * PAGE_SIZE,
            PAGE_SIZE == 4096,
    ;
    assert forall|p: int| 0 <= p < v.num_pages implies #[trigger] w.pages[p] == v.pages[p] by {
        assert((p + 1) * PAGE_SIZE <= v.num_pages * PAGE_SIZE) by (nonlinear_arith)
            requires
                p + 1 <= v.num_pages,
                PAGE_SIZE == 4096,
        ;
        assert(file.subrange(p * PAGE_SIZE, (p + 1) * PAGE_SIZE) == v.pages[p]);
        flushed_page_reads_back(v, file, p);
    }
    if tree_usable(v) {
        assert forall|p: int| 0 <= p < w.num_pages implies #[trigger] node_ok(w.pages, w.num_pages, p) by {
            assert(node_ok(v.pages, v.num_pages, p));
            lemma_node_ok_same_prefix(v.pages, w.pages, v.num_pages, p);
        }
        assert(w.pages[0] == v.pages[0]);
    }
}

/// A successful insertion cuts no subtree off: every child of an internal page in use before
/// is still a child of an internal page in use after.
pub proof fn insertion_keeps_subtrees_attached(v: PagerView, w: PagerView, row: Row, r: Result<(), ExecuteError>)
    requires
        tree_usable(v),
        row.wf(),
        insert_executed(v, w, row, r),
        r is Ok,
    ensures
        children_kept(v.pages, v.num_pages, w),
{
    let (c, v1) = choose|c: CursorView, v1: PagerView| #[trigger] found_at(v.pages, 0, row.id, c, TABLE_MAX_PAGES as nat)
        && #[trigger] same_tree(v, v1)
        && leaf_insert_outcome(v1, w, c.page_num as int, c.cell_num as int, row.id, row.spec_bytes(),
            insert_table_result(r, row.id));
    let page = c.page_num as int;
    crate::cursor::lemma_reaches_in_use(v, 0, page, row.id, TABLE_MAX_PAGES as nat);
    if leaf_num_cells(v.pages[page]) < LEAF_NODE_MAX_CELLS {
        assert forall|q: int, k: int| 0 <= q < v.num_pages && crate::node::is_internal(v.pages[q])
            && 0 <= k <= crate::node::num_keys(v.pages[q])
            implies crate::table::attached(w, #[trigger] crate::node::child_at(v.pages[q], k) as int) by {
            assert(q != page);
            assert(w.pages[q] == v.pages[q]);
            assert(is_child_at(w, q, k, crate::node::child_at(v.pages[q], k) as int));
        }
    }
}

/// `file` with `bytes` written at the place of page `p`, the file growing with zero bytes to
/// reach it when it is shorter.
pub open spec fn put_page(file: Seq<u8>, p: int, bytes: Seq<u8>) -> Seq<u8> {
    let end = if file.len() > (p + 1) * PAGE_SIZE { file.len() as int } else { (p + 1) * PAGE_SIZE };
    Seq::new(end as nat, |i: int|
        if p * PAGE_SIZE <= i < (p + 1) * PAGE_SIZE { bytes[i - p * PAGE_SIZE] } else if i < file.len() { file[i] } else { 0u8 })
}

/// `file` after the pages `ps` of `v` are written at their places, in order.
pub open spec fn write_pages(file: Seq<u8>, ps: Seq<usize>, v: PagerView) -> Seq<u8>
    decreases ps.len(),
{
    if ps.len() == 0 {
        file
    } else {
        put_page(write_pages(file, ps.drop_last(), v), ps.last() as int, v.pages[ps.last() as int])
    }
}

/// Writing a page changes the page read at its place and no other page.
proof fn lemma_put_page_reads(file: Seq<u8>, p: int, bytes: Seq<u8>, q: int)
    requires
        0 <= p,
        0 <= q,
        bytes.len() == PAGE_SIZE,
    ensures
        file_page(put_page(file, p, bytes), q) == if q == p { bytes } else { file_page(file, q) },
{
    let f2 = put_page(file, p, bytes);
    if q == p {
        assert(file_page(f2, q) =~= bytes);
    } else {
        assert forall|i: int| 0 <= i < PAGE_SIZE implies #[trigger] file_page(f2, q)[i] == file_page(file, q)[i] by {
            let j = q * PAGE_SIZE + i;
            if q < p {
                assert(j < p * PAGE_SIZE);
            } else {
                assert(j >= (p + 1) * PAGE_SIZE);
            }
        }
        assert(file_page(f2, q) =~= file_page(file, q));
    }
}

/// The pages below `limit` that have been brought in come in increasing order, each below
/// `limit`, and a page is among them just when it is below `limit` and brought in.
proof fn lemma_cached_below(v: PagerView, limit: int)
    requires
        limit <= TABLE_MAX_PAGES,
    ensures
        forall|i: int, j: int| 0 <= i < j < cached_below(v, limit).len() ==> cached_below(v, limit)[i] < cached_below(v, limit)[j],
        forall|i: int| 0 <= i < cached_below(v, limit).len() ==> 0 <= #[trigger] cached_below(v, limit)[i] < limit
            && v.cached[cached_below(v, limit)[i] as int],
        forall|p: int| 0 <= p < limit && v.cached[p] ==> exists|i: int| 0 <= i < cached_below(v, limit).len()
            && #[trigger] cached_below(v, limit)[i] == p,
    decreases limit,
{
    if limit > 0 {
        lemma_cached_below(v, limit - 1);
        let s = cached_below(v, limit - 1);
        if v.cached[limit - 1] {
            let t = s.push((limit - 1) as usize);
            assert(cached_below(v, limit) == t);
            assert forall|p: int| 0 <= p < limit && v.cached[p] implies exists|i: int| 0 <= i < t.len() && #[trigger] t[i] == p by {
                if p == limit - 1 {
                    assert(t[s.len() as int] == (limit - 1) as usize);
                    assert(t[s.len() as int] == p);
                } else {
                    let i = choose|i: int| 0 <= i < s.len() && #[trigger] s[i] == p;
                    assert(t[i] == p);
                }
            }
        } else {
            assert(cached_below(v, limit) == s);
            assert forall|p: int| 0 <= p < limit && v.cached[p] implies exists|i: int| 0 <= i < s.len() && #[trigger] s[i] == p by {
                assert(p != limit - 1);
            }
        }
    }
}

/// Writing pages of increasing numbers, each of a page's size, reads each written page back at
/// its place and leaves every other page as it was.
proof fn lemma_write_pages_reads(file: Seq<u8>, ps: Seq<usize>, v: PagerView, q: int)
    requires
        storage_ok(v),
        forall|i: int, j: int| 0 <= i < j < ps.len() ==> ps[i] < ps[j],
        forall|i: int| 0 <= i < ps.len() ==> #[trigger] ps[i] < TABLE_MAX_PAGES,
        0 <= q,
    ensures
        (exists|i: int| 0 <= i < ps.len() && #[trigger] ps[i] == q) ==> file_page(write_pages(file, ps, v), q) == v.pages[q],
        !(exists|i: int| 0 <= i < ps.len() && #[trigger] ps[i] == q) ==> file_page(write_pages(file, ps, v), q) == file_page(file, q),
    decreases ps.len(),
{
    if ps.len() > 0 {
        let init = ps.drop_last();
        let last = ps.last() as int;
        assert forall|i: int, j: int| 0 <= i < j < init.len() implies init[i] < init[j] by {
            assert(init[i] == ps[i] && init[j] == ps[j]);
        }
        assert forall|i: int| 0 <= i < init.len() implies #[trigger] init[i] < TABLE_MAX_PAGES by {
            assert(init[i] == ps[i]);
        }
        lemma_write_pages_reads(file, init, v, q);
        assert(ps[ps.len() - 1] < TABLE_MAX_PAGES);
        lemma_put_page_reads(write_pages(file, init, v), last, v.pages[last], q);
        if exists|i: int| 0 <= i < ps.len() && #[trigger] ps[i] == q {
            if q != last {
                let i = choose|i: int| 0 <= i < ps.len() && #[trigger] ps[i] == q;
                assert(i < ps.len() - 1);
                assert(init[i] == q);
            }
        } else {
            assert forall|i: int| 0 <= i < init.len() implies #[trigger] init[i] != q by {
                assert(init[i] == ps[i]);
            }
        }
    }
}

/// Writing each page that a flush returns at its place, in order, and reopening the file gives
/// back every page in use that had been brought in, byte for byte; every other page of the
/// file reads as it did before.
pub proof fn flushed_pages_read_back(v: PagerView, file: Seq<u8>, w: PagerView)
    requires
        storage_ok(v),
        v.num_pages <= TABLE_MAX_PAGES,
        forall|p: int| 0 <= p < TABLE_MAX_PAGES ==> #[trigger] w.pages[p] == file_page(write_pages(file, flushed_pages(v), v), p),
    ensures
        forall|p: int| 0 <= p < v.num_pages && v.cached[p] ==> #[trigger] w.pages[p] == v.pages[p],
        forall|p: int| 0 <= p < TABLE_MAX_PAGES && !(p < v.num_pages && v.cached[p]) ==> #[trigger] w.pages[p] == file_page(file, p),
{
    let ps = flushed_pages(v);
    lemma_cached_below(v, v.num_pages as int);
    assert forall|p: int| 0 <= p < TABLE_MAX_PAGES implies (#[trigger] w.pages[p] == (if p < v.num_pages && v.cached[p] { v.pages[p] } else { file_page(file, p) })) by {
        lemma_write_pages_reads(file, ps, v, p);
        if !(p < v.num_pages && v.cached[p]) {
            if exists|i: int| 0 <= i < ps.len() && #[trigger] ps[i] == p {
                let i = choose|i: int| 0 <= i < ps.len() && #[trigger] ps[i] == p;
                assert(v.cached[ps[i] as int]);
            }
        }
    }
}

/// The lowest key (exclusive) of child `k` of internal page `p`, when the page's own keys are
/// above `lo`.
pub open spec fn child_lo(p: Seq<u8>, k: int, lo: int) -> int {
    if k == 0 { lo } else { crate::node::internal_key(p, k - 1) as int }
}

/// The highest key (inclusive) of child `k` of internal page `p`, when the page's own keys are
/// at or below `hi`.
pub open spec fn child_hi(p: Seq<u8>, k: int, hi: int) -> int {
    if k == crate::node::num_keys(p) { hi } else { crate::node::internal_key(p, k) as int }
}

/// The subtree of `page`, through at most `fuel` internal pages, is in key order between `lo`
/// (exclusive) and `hi` (inclusive): a leaf has ascending keys in that range; an internal page
/// has ascending keys in that range, and the keys under child `k` lie above key `k - 1` and at
/// or below key `k`, the keys of the last child above the last key.
pub open spec fn keys_in_order(pages: Seq<Seq<u8>>, page: int, lo: int, hi: int, fuel: nat) -> bool
    decreases fuel,
{
    let p = pages[page];
    if is_leaf(p) {
        &&& leaf_keys_sorted(p)
        &&& forall|i: int| 0 <= i < leaf_num_cells(p) ==> lo < #[trigger] leaf_key(p, i) <= hi
    } else if fuel == 0 {
        false
    } else {
        &&& crate::node::keys_sorted(p)
        &&& forall|k: int| 0 <= k < crate::node::num_keys(p) ==> lo < #[trigger] crate::node::internal_key(p, k) <= hi
        &&& forall|k: int| 0 <= k <= crate::node::num_keys(p) ==> keys_in_order(pages,
            #[trigger] crate::node::child_at(p, k) as int, child_lo(p, k, lo), child_hi(p, k, hi), (fuel - 1) as nat)
    }
}

/// Some leaf in the subtree of `page`, through at most `fuel` internal pages, holds `key`.
pub open spec fn holds_key(pages: Seq<Seq<u8>>, page: int, key: u32, fuel: nat) -> bool
    decreases fuel,
{
    let p = pages[page];
    if is_leaf(p) {
        exists|i: int| 0 <= i < leaf_num_cells(p) && #[trigger] leaf_key(p, i) == key
    } else if fuel == 0 {
        false
    } else {
        exists|k: int| 0 <= k <= crate::node::num_keys(p)
            && holds_key(pages, #[trigger] crate::node::child_at(p, k) as int, key, (fuel - 1) as nat)
    }
}

/// A key held in a subtree in key order lies in the subtree's range.
proof fn lemma_held_key_in_range(pages: Seq<Seq<u8>>, page: int, lo: int, hi: int, key: u32, fuel: nat)
    requires
        keys_in_order(pages, page, lo, hi, fuel),
        holds_key(pages, page, key, fuel),
    ensures
        lo < key <= hi,
    decreases fuel,
{
    let p = pages[page];
    if !is_leaf(p) {
        let k = choose|k: int| 0 <= k <= crate::node::num_keys(p)
            && holds_key(pages, #[trigger] crate::node::child_at(p, k) as int, key, (fuel - 1) as nat);
        let c = crate::node::child_at(p, k) as int;
        lemma_held_key_in_range(pages, c, child_lo(p, k, lo), child_hi(p, k, hi), key, (fuel - 1) as nat);
        if k > 0 {
            assert(lo < crate::node::internal_key(p, k - 1));
        }
        if k < crate::node::num_keys(p) {
            assert(crate::node::internal_key(p, k) <= hi);
        }
    }
}

/// In a subtree in key order that holds `key`, the search for `key` reaches the leaf that
/// holds it.
proof fn lemma_search_reaches_holder(pages: Seq<Seq<u8>>, from: int, to: int, lo: int, hi: int, key: u32, fuel: nat)
    requires
        keys_in_order(pages, from, lo, hi, fuel),
        holds_key(pages, from, key, fuel),
        reaches(pages, from, to, key, fuel),
    ensures
        is_leaf(pages[to]),
        leaf_keys_sorted(pages[to]),
        exists|i: int| 0 <= i < leaf_num_cells(pages[to]) && #[trigger] leaf_key(pages[to], i) == key,
    decreases fuel,
{
    let p = pages[from];
    if !is_leaf(p) {
        let r = choose|r: int| #[trigger] crate::node::is_lower_bound(p, key, r)
            && reaches(pages, crate::node::child_at(p, r) as int, to, key, (fuel - 1) as nat);
        let k = choose|k: int| 0 <= k <= crate::node::num_keys(p)
            && holds_key(pages, #[trigger] crate::node::child_at(p, k) as int, key, (fuel - 1) as nat);
        let n = crate::node::num_keys(p) as int;
        assert(keys_in_order(pages, crate::node::child_at(p, k) as int, child_lo(p, k, lo), child_hi(p, k, hi), (fuel - 1) as nat));
        lemma_held_key_in_range(pages, crate::node::child_at(p, k) as int, child_lo(p, k, lo), child_hi(p, k, hi), key, (fuel - 1) as nat);
        if k < r {
            assert(crate::node::internal_key(p, k) < key);
        }
        if k > r {
            assert(crate::node::internal_key(p, r) <= crate::node::internal_key(p, k - 1));
        }
        assert(k == r);
        lemma_search_reaches_holder(pages, crate::node::child_at(p, r) as int, to, child_lo(p, r, lo), child_hi(p, r, hi), key, (fuel - 1) as nat);
    }
}

/// In a table whose tree is in key order, the search for a key that some leaf of the tree
/// holds stops at the cell that holds it, however many levels the tree has.
pub proof fn search_finds_key_in_ordered_tree(pages: Seq<Seq<u8>>, key: u32, c: CursorView)
    requires
        keys_in_order(pages, 0, -1, 0x1_0000_0000, TABLE_MAX_PAGES as nat),
        holds_key(pages, 0, key, TABLE_MAX_PAGES as nat),
        found_at(pages, 0, key, c, TABLE_MAX_PAGES as nat),
    ensures
        c.cell_num < leaf_num_cells(pages[c.page_num as int]),
        leaf_key(pages[c.page_num as int], c.cell_num as int) == key,
{
    let to = c.page_num as int;
    lemma_search_reaches_holder(pages, 0, to, -1, 0x1_0000_0000, key, TABLE_MAX_PAGES as nat);
    let i = choose|i: int| 0 <= i < leaf_num_cells(pages[to]) && #[trigger] leaf_key(pages[to], i) == key;
    search_finds_present_key(pages[to], key, c.cell_num as int, i);
}

/// The leaves in use are sorted and linked in key order: every key of a leaf is below every
/// key of the leaf it links to.
pub open spec fn leaf_chain_in_order(v: PagerView) -> bool {
    forall|q: int| 0 <= q < v.num_pages && #[trigger] is_leaf(v.pages[q]) ==> {
        &&& leaf_keys_sorted(v.pages[q])
        &&& next_leaf(v.pages[q]) != 0 ==> forall|i: int, j: int| 0 <= i < leaf_num_cells(v.pages[q])
            && 0 <= j < leaf_num_cells(v.pages[next_leaf(v.pages[q]) as int])
            ==> #[trigger] leaf_key(v.pages[q], i) < #[trigger] leaf_key(v.pages[next_leaf(v.pages[q]) as int], j)
    }
}

/// The key of the cell at position `c`.
pub open spec fn cell_key(pages: Seq<Seq<u8>>, c: CursorView) -> u32 {
    leaf_key(pages[c.page_num as int], c.cell_num as int)
}

/// A scan from a readable position of a table whose leaves are linked in key order reads
/// cells in strictly increasing order of key, starting at that position.
pub proof fn lemma_scan_ascends(v: PagerView, c: CursorView, fuel: nat, ps: Seq<CursorView>)
    requires
        tree_usable(v),
        leaf_chain_in_order(v),
        crate::vm::readable(v, c),
        scan_from(v.pages, c, fuel) == Some(ps),
    ensures
        forall|i: int| 0 <= i < ps.len() ==> crate::vm::readable(v, #[trigger] ps[i]) && !ps[i].end_of_table,
        ps.len() > 0 ==> ps[0] == c,
        forall|i: int, j: int| 0 <= i < j < ps.len() ==> cell_key(v.pages, #[trigger] ps[i]) < cell_key(v.pages, #[trigger] ps[j]),
    decreases fuel,
{
    if !c.end_of_table && fuel > 0 {
        let d = crate::cursor::advanced(v.pages, c);
        crate::vm::lemma_advanced_readable(v, c);
        let rest = scan_from(v.pages, d, (fuel - 1) as nat)->Some_0;
        lemma_scan_ascends(v, d, (fuel - 1) as nat, rest);
        assert(ps == seq![c] + rest);
        if rest.len() > 0 {
            let p = v.pages[c.page_num as int];
            assert(is_leaf(p));
            assert(leaf_keys_sorted(p));
            if c.cell_num + 1 >= leaf_num_cells(p) {
                let nx = next_leaf(p) as int;
                assert(leaf_key(p, c.cell_num as int) < leaf_key(v.pages[nx], 0));
            } else {
                assert(leaf_key(p, c.cell_num as int) < leaf_key(p, c.cell_num + 1int));
            }
            assert(cell_key(v.pages, c) < cell_key(v.pages, rest[0]));
        }
        assert forall|i: int, j: int| 0 <= i < j < ps.len() implies cell_key(v.pages, #[trigger] ps[i]) < cell_key(v.pages, #[trigger] ps[j]) by {
            if i == 0 {
                assert(ps[j] == rest[j - 1]);
                if j > 1 {
                    assert(cell_key(v.pages, rest[0]) < cell_key(v.pages, rest[j - 1]));
                }
            } else {
                assert(ps[i] == rest[i - 1] && ps[j] == rest[j - 1]);
            }
        }
        assert forall|i: int| 0 <= i < ps.len() implies crate::vm::readable(v, #[trigger] ps[i]) && !ps[i].end_of_table by {
            if i > 0 {
                assert(ps[i] == rest[i - 1]);
            }
        }
    }
}

/// In a table whose leaves are linked in key order, a select that succeeds gives the rows of
/// cells of leaves in use, in strictly increasing order of key, so no cell twice.
pub proof fn select_reads_in_key_order(v: PagerView, r: Result<Vec<Row>, ExecuteError>)
    requires
        tree_usable(v),
        leaf_chain_in_order(v),
        select_executed(v, r),
        r is Ok,
    ensures
        exists|ps: Seq<CursorView>| #[trigger] rows_read(v.pages, r->Ok_0@, ps)
            && (forall|i: int| 0 <= i < ps.len() ==> crate::vm::readable(v, #[trigger] ps[i]) && !ps[i].end_of_table)
            && (forall|i: int, j: int| 0 <= i < j < ps.len() ==> cell_key(v.pages, #[trigger] ps[i]) < cell_key(v.pages, #[trigger] ps[j])),
{
    let c = choose|c: CursorView| #[trigger] found_at(v.pages, 0, 0, c, TABLE_MAX_PAGES as nat)
        && scan_from(v.pages, c, MAX_SCAN as nat) is Some
        && rows_read(v.pages, r->Ok_0@, scan_from(v.pages, c, MAX_SCAN as nat)->Some_0);
    let ps = scan_from(v.pages, c, MAX_SCAN as nat)->Some_0;
    crate::cursor::lemma_reaches_in_use(v, 0, c.page_num as int, 0, TABLE_MAX_PAGES as nat);
    let p = v.pages[c.page_num as int];
    if !c.end_of_table {
        if c.cell_num == leaf_num_cells(p) {
            assert(leaf_key(p, c.cell_num - 1int) < 0);
        }
    }
    assert(crate::vm::readable(v, c));
    lemma_scan_ascends(v, c, MAX_SCAN as nat, ps);
    assert(rows_read(v.pages, r->Ok_0@, ps));
}

// ---------------------------------------------------------------------------
// The printed tree.

/// Line `l` printed `d` levels deeper.
pub open spec fn shift_line(l: TreeLine, d: nat) -> TreeLine {
    match l {
        TreeLine::Leaf { level, size } => TreeLine::Leaf { level: (level + d) as usize, size },
        TreeLine::Cell { level, key } => TreeLine::Cell { level: (level + d) as usize, key },
        TreeLine::Internal { level, size } => TreeLine::Internal { level: (level + d) as usize, size },
        TreeLine::Key { level, key } => TreeLine::Key { level: (level + d) as usize, key },
    }
}

/// Lines `s`, if any, each printed `d` levels deeper.
pub open spec fn shift_lines(s: Option<Seq<TreeLine>>, d: nat) -> Option<Seq<TreeLine>> {
    match s {
        Some(lines) => Some(lines.map_values(|l: TreeLine| shift_line(l, d))),
        None => None,
    }
}

/// The lines of the cells of an internal page printed `d` levels deeper are its lines printed
/// at the shallower level, each moved `d` levels deeper.
proof fn lemma_children_lines_shift(pages: Seq<Seq<u8>>, page: int, level: nat, d: nat, fuel: nat, i: nat)
    requires
        level + d + fuel + 2 <= usize::MAX,
    ensures
        children_lines(pages, page, level + d, fuel, i) == shift_lines(children_lines(pages, page, level, fuel, i), d),
    decreases fuel, 0nat, i,
{
    if i > 0 && fuel > 0 {
        let p = pages[page];
        lemma_children_lines_shift(pages, page, level, d, fuel, (i - 1) as nat);
        subtree_lines_shift_with_level(pages, cell_child(p, i - 1) as int, level + 1, d, (fuel - 1) as nat);
        assert((level + 1 + d) == level + d + 1);
        match children_lines(pages, page, level, fuel, (i - 1) as nat) {
            Some(a) => match tree_lines(pages, cell_child(p, i - 1) as int, level + 1, (fuel - 1) as nat) {
                Some(b) => {
                    let k = TreeLine::Key { level: (level + 1) as usize, key: internal_key(p, i - 1) };
                    assert((a + b + seq![k]).map_values(|l: TreeLine| shift_line(l, d))
                        =~= a.map_values(|l: TreeLine| shift_line(l, d)) + b.map_values(|l: TreeLine| shift_line(l, d))
                        + seq![TreeLine::Key { level: (level + d + 1) as usize, key: internal_key(p, i - 1) }]);
                },
                None => {},
            },
            None => {},
        }
    }
}

/// The lines that print a subtree do not depend on the indentation it is printed at but by a
/// shift: printed `d` levels deeper, every line is the same line `d` levels deeper (so each
/// internal page's keys are printed one level below its header at every depth).
pub proof fn subtree_lines_shift_with_level(pages: Seq<Seq<u8>>, page: int, level: nat, d: nat, fuel: nat)
    requires
        level + d + fuel + 2 <= usize::MAX,
    ensures
        tree_lines(pages, page, level + d, fuel) == shift_lines(tree_lines(pages, page, level, fuel), d),
    decreases fuel, 1nat, 0nat,
{
    let p = pages[page];
    if is_leaf(p) {
        let a = seq![TreeLine::Leaf { level: level as usize, size: leaf_num_cells(p) }]
            + Seq::new(leaf_num_cells(p) as nat, |i: int| TreeLine::Cell { level: (level + 1) as usize, key: leaf_key(p, i) });
        let b = seq![TreeLine::Leaf { level: (level + d) as usize, size: leaf_num_cells(p) }]
            + Seq::new(leaf_num_cells(p) as nat, |i: int| TreeLine::Cell { level: (level + d + 1) as usize, key: leaf_key(p, i) });
        assert(a.map_values(|l: TreeLine| shift_line(l, d)) =~= b);
    } else if fuel > 0 && num_keys(p) > 0 {
        lemma_children_lines_shift(pages, page, level, d, fuel, num_keys(p) as nat);
        subtree_lines_shift_with_level(pages, right_child(p) as int, level + 1, d, (fuel - 1) as nat);
        assert((level + 1 + d) == level + d + 1);
        match children_lines(pages, page, level, fuel, num_keys(p) as nat) {
            Some(a) => match tree_lines(pages, right_child(p) as int, level + 1, (fuel - 1) as nat) {
                Some(b) => {
                    let h = TreeLine::Internal { level: level as usize, size: num_keys(p) };
                    assert((seq![h] + a + b).map_values(|l: TreeLine| shift_line(l, d))
                        =~= seq![TreeLine::Internal { level: (level + d) as usize, size: num_keys(p) }]
                        + a.map_values(|l: TreeLine| shift_line(l, d)) + b.map_values(|l: TreeLine| shift_line(l, d)));
                },
                None => {},
            },
            None => {},
        }
    } else if fuel > 0 {
        assert(seq![TreeLine::Internal { level: level as usize, size: num_keys(p) }].map_values(|l: TreeLine| shift_line(l, d))
            =~= seq![TreeLine::Internal { level: (level + d) as usize, size: num_keys(p) }]);
    }
}

/// Child `k` of internal page `p` printed at `level` is followed, at place `m` of `lines`,
/// by the line of key `k` one level deeper.
pub open spec fn key_after_child(pages: Seq<Seq<u8>>, page: int, level: nat, fuel: nat, k: int, lines: Seq<TreeLine>, m: int) -> bool {
    let p = pages[page];
    let sub = tree_lines(pages, cell_child(p, k) as int, level + 1, (fuel - 1) as nat);
    &&& sub is Some
    &&& sub->Some_0.len() <= m < lines.len()
    &&& lines[m] == TreeLine::Key { level: (level + 1) as usize, key: internal_key(p, k) }
    &&& lines.subrange(m - sub->Some_0.len(), m) == sub->Some_0
}

/// Somewhere in `lines` child `k` of internal page `page` is followed by the line of key `k`.
pub open spec fn key_printed(pages: Seq<Seq<u8>>, page: int, level: nat, fuel: nat, k: int, lines: Seq<TreeLine>) -> bool {
    exists|m: int| #[trigger] key_after_child(pages, page, level, fuel, k, lines, m)
}

/// The lines of the first `i` cells of an internal page hold, for each of them, the cell
/// child's subtree followed by the cell's key.
proof fn lemma_children_lines_keys(pages: Seq<Seq<u8>>, page: int, level: nat, fuel: nat, i: nat)
    requires
        children_lines(pages, page, level, fuel, i) is Some,
    ensures
        forall|k: int| 0 <= k < i ==> #[trigger] key_printed(pages, page, level, fuel, k, children_lines(pages, page, level, fuel, i)->Some_0),
    decreases i,
{
    if i > 0 {
        let p = pages[page];
        lemma_children_lines_keys(pages, page, level, fuel, (i - 1) as nat);
        let a = children_lines(pages, page, level, fuel, (i - 1) as nat)->Some_0;
        let b = tree_lines(pages, cell_child(p, i - 1) as int, level + 1, (fuel - 1) as nat)->Some_0;
        let all = children_lines(pages, page, level, fuel, i)->Some_0;
        assert(all == a + b + seq![TreeLine::Key { level: (level + 1) as usize, key: internal_key(p, i - 1) }]);
        assert forall|k: int| 0 <= k < i implies #[trigger] key_printed(pages, page, level, fuel, k, all) by {
            if k < i - 1 {
                assert(key_printed(pages, page, level, fuel, k, a));
                let m = choose|m: int| #[trigger] key_after_child(pages, page, level, fuel, k, a, m);
                let sub = tree_lines(pages, cell_child(p, k) as int, level + 1, (fuel - 1) as nat)->Some_0;
                assert(all.subrange(m - sub.len(), m) =~= a.subrange(m - sub.len(), m));
                assert(key_after_child(pages, page, level, fuel, k, all, m));
            } else {
                let m: int = (a.len() + b.len()) as int;
                assert(all.subrange(m - b.len(), m) =~= b);
                assert(key_after_child(pages, page, level, fuel, k, all, m));
            }
        }
    }
}

/// The lines that print an internal page start with its header; after the subtree of each
/// cell child `k` comes the line of key `k`, one level deeper than the header; and the lines
/// end with the right child's subtree.
pub proof fn printed_internal_page_shows_each_key(pages: Seq<Seq<u8>>, page: int, level: nat, fuel: nat, lines: Seq<TreeLine>)
    requires
        !is_leaf(pages[page]),
        tree_lines(pages, page, level, fuel) == Some(lines),
    ensures
        lines[0] == (TreeLine::Internal { level: level as usize, size: num_keys(pages[page]) }),
        forall|k: int| 0 <= k < num_keys(pages[page]) ==> #[trigger] key_printed(pages, page, level, fuel, k, lines),
        num_keys(pages[page]) > 0 ==> ({
            let r = tree_lines(pages, right_child(pages[page]) as int, level + 1, (fuel - 1) as nat);
            &&& r is Some
            &&& r->Some_0.len() < lines.len()
            &&& lines.subrange(lines.len() - r->Some_0.len(), lines.len() as int) == r->Some_0
        }),
{
    let p = pages[page];
    if num_keys(p) > 0 {
        let n = num_keys(p) as nat;
        lemma_children_lines_keys(pages, page, level, fuel, n);
        let a = children_lines(pages, page, level, fuel, n)->Some_0;
        let b = tree_lines(pages, right_child(p) as int, level + 1, (fuel - 1) as nat)->Some_0;
        let h = TreeLine::Internal { level: level as usize, size: num_keys(p) };
        assert(lines == seq![h] + a + b);
        assert(lines.subrange(lines.len() - b.len(), lines.len() as int) =~= b);
        assert forall|k: int| 0 <= k < num_keys(p) implies #[trigger] key_printed(pages, page, level, fuel, k, lines) by {
            assert(key_printed(pages, page, level, fuel, k, a));
            let m = choose|m: int| #[trigger] key_after_child(pages, page, level, fuel, k, a, m);
            let sub = tree_lines(pages, cell_child(p, k) as int, level + 1, (fuel - 1) as nat)->Some_0;
            assert(lines.subrange(m + 1 - sub.len(), m + 1) =~= a.subrange(m - sub.len(), m));
            assert(key_after_child(pages, page, level, fuel, k, lines, m + 1));
        }
    }
}

// ---------------------------------------------------------------------------
// Splitting a full internal page.

/// The search for the first entry at or above `key` from `from` passes only entries below
/// `key` and stops at an entry at or above it, or at the end.
proof fn lemma_first_at_least_place(s: Seq<(u32, u32)>, key: u32, from: int)
    requires
        0 <= from <= s.len(),
    ensures
        from <= first_at_least(s, key, from) <= s.len(),
        forall|i: int| from <= i < first_at_least(s, key, from) ==> #[trigger] s[i].1 < key,
        first_at_least(s, key, from) < s.len() ==> s[first_at_least(s, key, from)].1 >= key,
    decreases s.len() - from,
{
    if from < s.len() && s[from].1 < key {
        lemma_first_at_least_place(s, key, from + 1);
    }
}

/// The entries of internal page `a`, its right child keyed by `rk`, are in key order.
pub open spec fn entries_in_key_order(a: Seq<u8>, rk: u32) -> bool {
    &&& crate::node::keys_sorted(a)
    &&& num_keys(a) > 0 ==> internal_key(a, num_keys(a) - 1) <= rk
}

/// Splitting a full internal page to add a child lists the child, with its key, right after
/// every entry whose key is below it, before the first entry whose key is at or above it; so
/// when the page's entries are in key order, the entries the split divides are in key order.
pub proof fn split_places_child_in_key_order(a: Seq<u8>, rk: u32, child: u32, ck: u32)
    ensures
        ({
            let old = old_entries(a, rk);
            let e = split_entries(a, rk, child, ck);
            exists|idx: int| 0 <= idx <= old.len() && e == old.insert(idx, (child, ck))
                && (forall|i: int| 0 <= i < idx ==> #[trigger] old[i].1 < ck)
                && (idx < old.len() ==> old[idx].1 >= ck)
        }),
        entries_in_key_order(a, rk) ==> forall|i: int, j: int| 0 <= i <= j < split_entries(a, rk, child, ck).len()
            ==> #[trigger] split_entries(a, rk, child, ck)[i].1 <= #[trigger] split_entries(a, rk, child, ck)[j].1,
{
    let old = old_entries(a, rk);
    let e = split_entries(a, rk, child, ck);
    let idx = first_at_least(old, ck, 0);
    lemma_first_at_least_place(old, ck, 0);
    assert(e == old.insert(idx, (child, ck)));
    if entries_in_key_order(a, rk) {
        let n = num_keys(a) as int;
        assert forall|i: int, j: int| 0 <= i <= j < old.len() implies old[i].1 <= old[j].1 by {
            if j < n {
                assert(old[i].1 == internal_key(a, i) && old[j].1 == internal_key(a, j));
            } else if i < n {
                assert(internal_key(a, i) <= internal_key(a, n - 1));
            }
        }
        assert forall|i: int, j: int| 0 <= i <= j < e.len() implies #[trigger] e[i].1 <= #[trigger] e[j].1 by {
            if i < idx {
                assert(e[i] == old[i]);
            } else if i > idx {
                assert(e[i] == old[i - 1]);
            }
            if j < idx {
                assert(e[j] == old[j]);
            } else if j > idx {
                assert(e[j] == old[j - 1]);
                assert(old[idx].1 >= ck);
            }
        }
    }
}

/// A split of a full internal root whose entries are in key order leaves the keys in order:
/// the left half's key, the new root's key and the right half's two keys ascend.
pub proof fn internal_root_split_keeps_keys_in_order(v: PagerView, w: PagerView, pp: int, c: int, r: Result<(), TableError>)
    requires
        internal_split_outcome(v, w, pp, c, r),
        r is Ok,
        root_flag(v.pages[pp]),
        num_keys(v.pages[pp]) == INTERNAL_NODE_MAX_CELLS,
        entries_in_key_order(v.pages[pp], crate::node::max_key(v.pages[right_child(v.pages[pp]) as int])),
    ensures
        ({
            let n0 = v.num_pages as int;
            let left = w.pages[n0 + 1];
            let right = w.pages[n0];
            &&& num_keys(left) == 1 && num_keys(right) == 2 && num_keys(w.pages[0]) == 1
            &&& internal_key(left, 0) <= internal_key(w.pages[0], 0)
            &&& internal_key(w.pages[0], 0) <= internal_key(right, 0)
            &&& internal_key(right, 0) <= internal_key(right, 1)
        }),
{
    let a = v.pages[pp];
    let rk = crate::node::max_key(v.pages[right_child(a) as int]);
    let ck = crate::node::max_key(v.pages[c]);
    split_places_child_in_key_order(a, rk, c as u32, ck);
    let e = split_entries(a, rk, c as u32, ck);
    assert(e[0].1 <= e[1].1 && e[1].1 <= e[2].1 && e[2].1 <= e[3].1);
    let n0 = v.num_pages as int;
    assert(internal_key(w.pages[n0 + 1], 0) == e.subrange(0, 2)[0].1);
    assert(internal_key(w.pages[n0], 0) == e.subrange(2, 5)[0].1);
    assert(internal_key(w.pages[n0], 1) == e.subrange(2, 5)[1].1);
}

/// A split of a full internal page below the root whose entries are in key order leaves the
/// keys in order: the page keeps the lower key, the key passed up to its parent comes next,
/// and the new page holds the two higher keys in order.
pub proof fn internal_split_keeps_keys_in_order(v: PagerView, s: PagerView, pp: int, child: u32, rk: u32, ck: u32)
    requires
        internal_split_mid(v, s, pp, child, rk, ck),
        parent_of(v.pages[pp]) as int != pp,
        num_keys(v.pages[pp]) == INTERNAL_NODE_MAX_CELLS,
        entries_in_key_order(v.pages[pp], rk),
    ensures
        ({
            let n = v.num_pages as int;
            let up = split_entries(v.pages[pp], rk, child, ck)[1].1;
            &&& num_keys(s.pages[pp]) == 1 && num_keys(s.pages[n]) == 2
            &&& internal_key(s.pages[pp], 0) <= up
            &&& up <= internal_key(s.pages[n], 0)
            &&& internal_key(s.pages[n], 0) <= internal_key(s.pages[n], 1)
        }),
{
    let a = v.pages[pp];
    split_places_child_in_key_order(a, rk, child, ck);
    let e = split_entries(a, rk, child, ck);
    assert(e[0].1 <= e[1].1 && e[1].1 <= e[2].1 && e[2].1 <= e[3].1);
    let n = v.num_pages as int;
    assert(internal_key(s.pages[pp], 0) == e.subrange(0, 2)[0].1);
    assert(internal_key(s.pages[n], 0) == e.subrange(2, 5)[0].1);
    assert(internal_key(s.pages[n], 1) == e.subrange(2, 5)[1].1);
}

// ---------------------------------------------------------------------------
// Preparing an insert.

/// The words of `b` are `insert`, an integer `n`, and two more words.
pub open spec fn insert_words(b: Seq<u8>) -> bool {
    let w = split_ws(b);
    &&& w.len() >= 2
    &&& w[0] == insert_keyword()
    &&& parse_i64(w[1]) is Some
}

/// Preparing an insert refuses an id as negative exactly when it is an integer below zero;
/// an id from zero to `u32::MAX`, followed by a username and an email within their sizes,
/// gives the row with that id and those columns.
pub proof fn insert_id_refused_only_when_negative(b: Seq<u8>)
    ensures
        (prepared_insert(b) == Err::<(u32, Seq<u8>, Seq<u8>), PrepareError>(PrepareError::NegativeId))
            <==> (insert_words(b) && parse_i64(split_ws(b)[1])->0 < 0),
        ({
            let w = split_ws(b);
            &&& insert_words(b)
            &&& w.len() == 4
            &&& 0 <= parse_i64(w[1])->0 <= u32::MAX
            &&& w[2].len() <= COLUMN_USERNAME_SIZE
            &&& w[3].len() <= COLUMN_EMAIL_SIZE
        }) ==> prepared_insert(b) == Ok::<(u32, Seq<u8>, Seq<u8>), PrepareError>((
            parse_i64(split_ws(b)[1])->0 as u32,
            padded(split_ws(b)[2], COLUMN_USERNAME_SIZE as nat),
            padded(split_ws(b)[3], COLUMN_EMAIL_SIZE as nat),
        )),
{
}

}
