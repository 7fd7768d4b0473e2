//! Tables of at most one internal level: the root a leaf, or an internal root over leaves.
//! While a table has that shape, its rows are all on the leaf chain, in key order.
use crate::bytes::{be_u32, put_u32};
use crate::constants::{PAGE_SIZE, TABLE_MAX_PAGES};
use crate::cursor::{advanced, found_at, height_le, is_leaf_lower_bound, leaf_keys_sorted, reaches, same_tree, CursorView};
use crate::errors::ExecuteError;
use crate::laws::{cell_key, child_hi, child_lo, holds_key, keys_in_order, leaf_chain_in_order, lemma_scan_ascends, stored_at};
use crate::node::{
    cell_child, child_at, internal_cell_offset, internal_key, is_internal, is_leaf, leaf_key, leaf_num_cells, leaf_value, max_key, next_leaf,
    num_keys, parent_of, right_child, root_flag, INTERNAL_NODE_CHILD_SIZE, INTERNAL_NODE_MAX_CELLS, LEAF_NODE_MAX_CELLS,
    LEAF_NODE_VALUE_SIZE,
};
use crate::row::Row;
use crate::table::{cell_bytes, leaf_insert_outcome, merged_cells, node_ok, split_outcome, storage_ok, tree_usable, PagerView};
use crate::vm::{insert_executed, insert_table_result, readable, rows_read, scan_from, select_executed, MAX_SCAN};
use vstd::prelude::*;

verus! {

/// Child `i` of the internal root of `v` is a leaf in use, not flagged as root, with the root as
/// parent, sorted and not empty, linked to the next child (the last child to no leaf), with its
/// keys at or below the root's key `i` and above the root's key `i - 1`.
pub open spec fn child_leaf_in_place(v: PagerView, i: int) -> bool {
    let r = v.pages[0];
    let k = num_keys(r) as int;
    let c = child_at(r, i) as int;
    let p = v.pages[c];
    &&& 1 <= c < v.num_pages
    &&& is_leaf(p)
    &&& !root_flag(p)
    &&& parent_of(p) == 0
    &&& leaf_keys_sorted(p)
    &&& 1 <= leaf_num_cells(p)
    &&& next_leaf(p) == (if i < k { child_at(r, i + 1) } else { 0 })
    &&& forall|j: int| 0 <= j < leaf_num_cells(p) ==> (i < k ==> #[trigger] leaf_key(p, j) <= internal_key(r, i))
        && (i > 0 ==> leaf_key(p, j) > internal_key(r, i - 1))
}

/// The table has at most one internal level and its rows are chained in key order: either
/// the root is the only page, a leaf with sorted keys and no next leaf; or the root is an
/// internal page flagged as root, with one to `INTERNAL_NODE_MAX_CELLS` keys in strictly
/// increasing order, whose children are leaves in place (`child_leaf_in_place`), linked from
/// the first to the last, and are the pages in use other than the root.
pub open spec fn rows_chained_in_order(v: PagerView) -> bool {
    let r = v.pages[0];
    if is_leaf(r) {
        &&& v.num_pages == 1
        &&& leaf_keys_sorted(r)
        &&& next_leaf(r) == 0
    } else {
        let k = num_keys(r) as int;
        &&& is_internal(r)
        &&& root_flag(r)
        &&& 1 <= k <= INTERNAL_NODE_MAX_CELLS
        &&& v.num_pages == k + 2
        &&& forall|i: int, j: int| 0 <= i < j < k ==> internal_key(r, i) < internal_key(r, j)
        &&& forall|i: int| 0 <= i <= k ==> #[trigger] child_leaf_in_place(v, i)
        &&& forall|q: int| 1 <= q < v.num_pages ==> #[trigger] is_root_child(v, q)
    }
}

/// Page `q` is a child of the internal root of `v`.
pub open spec fn is_root_child(v: PagerView, q: int) -> bool {
    exists|i: int| 0 <= i <= num_keys(v.pages[0]) && #[trigger] child_at(v.pages[0], i) as int == q
}

/// The position of cell `x` of page `p`.
pub open spec fn position(p: int, x: int) -> CursorView {
    CursorView { page_num: p as nat, cell_num: x as nat, end_of_table: false }
}

/// The scan `ps` reads position `c`.
pub open spec fn reads_position(ps: Seq<CursorView>, c: CursorView) -> bool {
    exists|m: int| 0 <= m < ps.len() && #[trigger] ps[m] == c
}

/// The number of cells of children `i` to the last of the internal root of `v`.
pub open spec fn cells_from(v: PagerView, i: int) -> nat
    decreases num_keys(v.pages[0]) + 1 - i,
{
    if i > num_keys(v.pages[0]) || i < 0 {
        0
    } else {
        leaf_num_cells(v.pages[child_at(v.pages[0], i) as int]) as nat + cells_from(v, i + 1)
    }
}

/// A table whose rows are chained in key order has its leaves linked in key order.
pub proof fn lemma_chained_leaves_in_order(v: PagerView)
    requires
        tree_usable(v),
        rows_chained_in_order(v),
    ensures
        leaf_chain_in_order(v),
{
    let r = v.pages[0];
    if !is_leaf(r) {
        let k = num_keys(r) as int;
        assert forall|q: int| 0 <= q < v.num_pages && #[trigger] is_leaf(v.pages[q]) implies {
            &&& leaf_keys_sorted(v.pages[q])
            &&& next_leaf(v.pages[q]) != 0 ==> forall|i: int, j: int| 0 <= i < leaf_num_cells(v.pages[q])
                && 0 <= j < leaf_num_cells(v.pages[next_leaf(v.pages[q]) as int])
                ==> #[trigger] leaf_key(v.pages[q], i) < #[trigger] leaf_key(v.pages[next_leaf(v.pages[q]) as int], j)
        } by {
            assert(q != 0);
            assert(is_root_child(v, q));
            let t = choose|t: int| 0 <= t <= k && #[trigger] child_at(r, t) as int == q;
            assert(child_leaf_in_place(v, t));
            if next_leaf(v.pages[q]) != 0 {
                assert(t < k);
                assert(child_leaf_in_place(v, t + 1));
            }
        }
    }
}

/// A scan from cell `x` of child `i` of the internal root reaches the end within the cells
/// left, and reads every cell of that child from `x` on and every cell of the children after.
proof fn lemma_scan_chain(v: PagerView, i: int, x: int, fuel: nat)
    requires
        rows_chained_in_order(v),
        !is_leaf(v.pages[0]),
        0 <= i <= num_keys(v.pages[0]),
        0 <= x < leaf_num_cells(v.pages[child_at(v.pages[0], i) as int]),
        leaf_num_cells(v.pages[child_at(v.pages[0], i) as int]) - x + cells_from(v, i + 1) <= fuel,
    ensures
        scan_from(v.pages, position(child_at(v.pages[0], i) as int, x), fuel) is Some,
        forall|t: int, y: int| i <= t <= num_keys(v.pages[0]) && (t == i ==> x <= y)
            && 0 <= y < leaf_num_cells(v.pages[child_at(v.pages[0], t) as int])
            ==> #[trigger] reads_position(scan_from(v.pages, position(child_at(v.pages[0], i) as int, x), fuel)->Some_0,
                position(child_at(v.pages[0], t) as int, y)),
    decreases leaf_num_cells(v.pages[child_at(v.pages[0], i) as int]) - x + cells_from(v, i + 1),
{
    let r = v.pages[0];
    let k = num_keys(r) as int;
    let pg = child_at(r, i) as int;
    let p = v.pages[pg];
    let c = position(pg, x);
    assert(child_leaf_in_place(v, i));
    let d = advanced(v.pages, c);
    let ps = scan_from(v.pages, c, fuel)->Some_0;
    if x + 1 < leaf_num_cells(p) {
        assert(d == position(pg, x + 1));
        lemma_scan_chain(v, i, x + 1, (fuel - 1) as nat);
        let rest = scan_from(v.pages, d, (fuel - 1) as nat)->Some_0;
        assert(ps == seq![c] + rest);
        assert forall|t: int, y: int| i <= t <= k && (t == i ==> x <= y) && 0 <= y < leaf_num_cells(v.pages[child_at(r, t) as int])
            implies #[trigger] reads_position(ps, position(child_at(r, t) as int, y)) by {
            if t == i && y == x {
                assert(ps[0] == position(child_at(r, t) as int, y));
            } else {
                assert(reads_position(rest, position(child_at(r, t) as int, y)));
                let m = choose|m: int| 0 <= m < rest.len() && #[trigger] rest[m] == position(child_at(r, t) as int, y);
                assert(ps[m + 1] == rest[m]);
            }
        }
    } else if i < k {
        assert(child_leaf_in_place(v, i + 1));
        let pg2 = child_at(r, i + 1) as int;
        assert(d == position(pg2, 0));
        assert(cells_from(v, i + 1) == leaf_num_cells(v.pages[pg2]) + cells_from(v, i + 2));
        lemma_scan_chain(v, i + 1, 0, (fuel - 1) as nat);
        let rest = scan_from(v.pages, d, (fuel - 1) as nat)->Some_0;
        assert(ps == seq![c] + rest);
        assert forall|t: int, y: int| i <= t <= k && (t == i ==> x <= y) && 0 <= y < leaf_num_cells(v.pages[child_at(r, t) as int])
            implies #[trigger] reads_position(ps, position(child_at(r, t) as int, y)) by {
            if t == i {
                assert(y == x);
                assert(ps[0] == position(child_at(r, t) as int, y));
            } else {
                assert(reads_position(rest, position(child_at(r, t) as int, y)));
                let m = choose|m: int| 0 <= m < rest.len() && #[trigger] rest[m] == position(child_at(r, t) as int, y);
                assert(ps[m + 1] == rest[m]);
            }
        }
    } else {
        assert(d.end_of_table);
        assert(ps == seq![c]);
        assert forall|t: int, y: int| i <= t <= k && (t == i ==> x <= y) && 0 <= y < leaf_num_cells(v.pages[child_at(r, t) as int])
            implies #[trigger] reads_position(ps, position(child_at(r, t) as int, y)) by {
            assert(t == i && y == x);
            assert(ps[0] == position(child_at(r, t) as int, y));
        }
    }
}

/// The children of an internal root hold at most `LEAF_NODE_MAX_CELLS` cells each.
proof fn lemma_cells_from_bound(v: PagerView, i: int)
    requires
        tree_usable(v),
        rows_chained_in_order(v),
        !is_leaf(v.pages[0]),
        0 <= i <= num_keys(v.pages[0]) + 1,
    ensures
        cells_from(v, i) <= LEAF_NODE_MAX_CELLS * (num_keys(v.pages[0]) + 1 - i),
    decreases num_keys(v.pages[0]) + 1 - i,
{
    if i <= num_keys(v.pages[0]) {
        assert(child_leaf_in_place(v, i));
        assert(node_ok(v.pages, v.num_pages, child_at(v.pages[0], i) as int));
        lemma_cells_from_bound(v, i + 1);
    }
}

/// The search for key 0 in a table whose rows are chained in key order stops at the first
/// cell of its first leaf, or at the end when the root is an empty leaf.
proof fn lemma_first_row(v: PagerView, c: CursorView)
    requires
        tree_usable(v),
        rows_chained_in_order(v),
        found_at(v.pages, 0, 0, c, TABLE_MAX_PAGES as nat),
    ensures
        is_leaf(v.pages[0]) && leaf_num_cells(v.pages[0]) == 0 ==> c.end_of_table && c.page_num == 0,
        is_leaf(v.pages[0]) && leaf_num_cells(v.pages[0]) > 0 ==> c == position(0, 0),
        !is_leaf(v.pages[0]) ==> c == position(child_at(v.pages[0], 0) as int, 0),
{
    let r = v.pages[0];
    if is_leaf(r) {
        crate::laws::lemma_root_leaf_search(v.pages, 0, c);
        if c.cell_num > 0 && leaf_num_cells(r) > 0 {
            assert(leaf_key(r, 0) < 0);
        }
    } else {
        let r0 = choose|r0: int| #[trigger] crate::node::is_lower_bound(r, 0, r0)
            && crate::cursor::reaches(v.pages, child_at(r, r0) as int, c.page_num as int, 0, (TABLE_MAX_PAGES - 1) as nat);
        if r0 > 0 {
            assert(internal_key(r, r0 - 1) < 0);
        }
        assert(child_leaf_in_place(v, 0));
        let p = v.pages[c.page_num as int];
        if c.cell_num > 0 {
            assert(leaf_key(p, 0) < 0);
        }
    }
}

/// In a table whose rows are chained in key order, a select succeeds and gives the rows of
/// every cell of every leaf in use, each once, in strictly increasing order of key.
pub proof fn select_reads_every_row_in_key_order(v: PagerView, r: Result<Vec<Row>, ExecuteError>)
    requires
        tree_usable(v),
        rows_chained_in_order(v),
        select_executed(v, r),
    ensures
        r is Ok,
        exists|ps: Seq<CursorView>| #[trigger] rows_read(v.pages, r->Ok_0@, ps)
            && (forall|m: int| 0 <= m < ps.len() ==> readable(v, #[trigger] ps[m]) && !ps[m].end_of_table)
            && (forall|m1: int, m2: int| 0 <= m1 < m2 < ps.len() ==> cell_key(v.pages, #[trigger] ps[m1]) < cell_key(v.pages, #[trigger] ps[m2]))
            && (forall|p: int, x: int| 0 <= p < v.num_pages && is_leaf(v.pages[p]) && 0 <= x < leaf_num_cells(v.pages[p])
                ==> #[trigger] reads_position(ps, position(p, x))),
{
    let root = v.pages[0];
    lemma_chained_leaves_in_order(v);
    // the first position and the scan from it
    let first = if is_leaf(root) {
        if leaf_num_cells(root) == 0 {
            CursorView { page_num: 0, cell_num: 0, end_of_table: true }
        } else {
            position(0, 0)
        }
    } else {
        position(child_at(root, 0) as int, 0)
    };
    if is_leaf(root) {
        assert(height_le(v.pages, 0, TABLE_MAX_PAGES as nat));
        if leaf_num_cells(root) > 0 {
            assert(node_ok(v.pages, v.num_pages, 0));
            crate::laws::lemma_scan_leaf(v.pages, 0, 0, MAX_SCAN as nat);
        }
    } else {
        let k = num_keys(root) as int;
        assert forall|i: int| 0 <= i <= k implies height_le(v.pages, #[trigger] child_at(root, i) as int, (TABLE_MAX_PAGES - 1) as nat) by {
            assert(child_leaf_in_place(v, i));
        }
        assert(height_le(v.pages, 0, TABLE_MAX_PAGES as nat));
        assert(child_leaf_in_place(v, 0));
        lemma_cells_from_bound(v, 1);
        assert(cells_from(v, 1) <= 39);
        assert(node_ok(v.pages, v.num_pages, child_at(root, 0) as int));
        lemma_scan_chain(v, 0, 0, MAX_SCAN as nat);
    }
    assert(scan_from(v.pages, first, MAX_SCAN as nat) is Some);
    assert forall|c: CursorView| #[trigger] found_at(v.pages, 0, 0, c, TABLE_MAX_PAGES as nat)
        implies scan_from(v.pages, c, MAX_SCAN as nat) is Some by {
        lemma_first_row(v, c);
        if is_leaf(root) && leaf_num_cells(root) == 0 {
            assert(scan_from(v.pages, c, MAX_SCAN as nat) == Some(Seq::<CursorView>::empty()));
        } else {
            assert(c == first);
        }
    }
    assert(r is Ok);
    let rows = r->Ok_0;
    let c = choose|c: CursorView| #[trigger] found_at(v.pages, 0, 0, c, TABLE_MAX_PAGES as nat)
        && scan_from(v.pages, c, MAX_SCAN as nat) is Some
        && rows_read(v.pages, rows@, scan_from(v.pages, c, MAX_SCAN as nat)->Some_0);
    let ps = scan_from(v.pages, c, MAX_SCAN as nat)->Some_0;
    lemma_first_row(v, c);
    if is_leaf(root) && leaf_num_cells(root) == 0 {
        assert(ps == Seq::<CursorView>::empty());
    } else {
        assert(readable(v, c)) by {
            if !is_leaf(root) {
                assert(child_leaf_in_place(v, 0));
            }
        }
        lemma_scan_ascends(v, c, MAX_SCAN as nat, ps);
    }
    assert forall|p: int, x: int| 0 <= p < v.num_pages && is_leaf(v.pages[p]) && 0 <= x < leaf_num_cells(v.pages[p])
        implies #[trigger] reads_position(ps, position(p, x)) by {
        if is_leaf(root) {
            assert(p == 0);
            assert(ps[x] == position(p, x));
        } else {
            assert(p != 0);
            assert(is_root_child(v, p));
            let t = choose|t: int| 0 <= t <= num_keys(root) && #[trigger] child_at(root, t) as int == p;
            assert(c == position(child_at(root, 0) as int, 0));
        }
    }
    assert(rows_read(v.pages, rows@, ps));
}

/// The keys of the fourteen cells that a full sorted leaf and a new key make, when the new key
/// goes where the search for it stops and is not already there: the keys below it, the new
/// key, then the keys above it, in strictly increasing order.
pub proof fn lemma_merged_keys(a: Seq<u8>, cell: int, key: u32, value: Seq<u8>)
    requires
        a.len() == PAGE_SIZE,
        leaf_num_cells(a) == LEAF_NODE_MAX_CELLS,
        leaf_keys_sorted(a),
        is_leaf_lower_bound(a, key, cell),
        !(cell < leaf_num_cells(a) && leaf_key(a, cell) == key),
        value.len() == LEAF_NODE_VALUE_SIZE,
    ensures
        forall|i: int| 0 <= i < LEAF_NODE_MAX_CELLS + 1 ==> #[trigger] be_u32(merged_cells(a, cell, cell_bytes(key, value))[i], 0)
            == (if i < cell { leaf_key(a, i) } else if i == cell { key } else { leaf_key(a, i - 1) }),
        forall|i: int, j: int| 0 <= i < j < LEAF_NODE_MAX_CELLS + 1 ==>
            #[trigger] be_u32(merged_cells(a, cell, cell_bytes(key, value))[i], 0)
            < #[trigger] be_u32(merged_cells(a, cell, cell_bytes(key, value))[j], 0),
{
    let m = merged_cells(a, cell, cell_bytes(key, value));
    crate::laws::lemma_cell_bytes_parts(key, value);
    assert forall|i: int| 0 <= i < LEAF_NODE_MAX_CELLS + 1 implies #[trigger] be_u32(m[i], 0)
        == (if i < cell { leaf_key(a, i) } else if i == cell { key } else { leaf_key(a, i - 1) }) by {
        if i < cell {
            crate::laws::lemma_key_of_cell(a, i);
        } else if i > cell {
            crate::laws::lemma_key_of_cell(a, i - 1);
        }
    }
    if cell < LEAF_NODE_MAX_CELLS {
        assert(leaf_key(a, cell) > key);
    }
    assert forall|i: int, j: int| 0 <= i < j < LEAF_NODE_MAX_CELLS + 1 implies
        #[trigger] be_u32(m[i], 0) < #[trigger] be_u32(m[j], 0) by {
        if j < cell {
        } else if j == cell {
            assert(leaf_key(a, i) < key);
        } else if i < cell {
            assert(leaf_key(a, i) < key);
            if cell < j - 1 {
                assert(leaf_key(a, cell) < leaf_key(a, j - 1));
            }
        } else if i == cell {
            if cell < j - 1 {
                assert(leaf_key(a, cell) < leaf_key(a, j - 1));
            }
        }
    }
}

/// Writing key `idx` of an internal page changes that key and nothing else of its fields.
pub proof fn lemma_key_slot_write(p: Seq<u8>, idx: int, x: u32)
    requires
        p.len() == PAGE_SIZE,
        0 <= idx <= INTERNAL_NODE_MAX_CELLS,
    ensures
        ({
            let b = put_u32(p, internal_cell_offset(idx) + INTERNAL_NODE_CHILD_SIZE, x);
            &&& b.len() == PAGE_SIZE
            &&& b[0] == p[0] && b[1] == p[1]
            &&& num_keys(b) == num_keys(p) && right_child(b) == right_child(p) && parent_of(b) == parent_of(p)
            &&& internal_key(b, idx) == x
            &&& forall|t: int| 0 <= t <= INTERNAL_NODE_MAX_CELLS && t != idx ==> #[trigger] internal_key(b, t) == internal_key(p, t)
            &&& forall|t: int| 0 <= t <= INTERNAL_NODE_MAX_CELLS ==> #[trigger] cell_child(b, t) == cell_child(p, t)
        }),
{
    let off = internal_cell_offset(idx) + INTERNAL_NODE_CHILD_SIZE;
    let b = put_u32(p, off, x);
    crate::bytes::lemma_put_u32(p, off, x);
    assert(b[2] == p[2] && b[3] == p[3] && b[4] == p[4] && b[5] == p[5]);
    assert(b[6] == p[6] && b[7] == p[7] && b[8] == p[8] && b[9] == p[9]);
    assert(b[10] == p[10] && b[11] == p[11] && b[12] == p[12] && b[13] == p[13]);
    assert forall|t: int| 0 <= t <= INTERNAL_NODE_MAX_CELLS && t != idx implies #[trigger] internal_key(b, t) == internal_key(p, t) by {
        let o = internal_cell_offset(t) + INTERNAL_NODE_CHILD_SIZE;
        assert(b[o] == p[o] && b[o + 1] == p[o + 1] && b[o + 2] == p[o + 2] && b[o + 3] == p[o + 3]);
    }
    assert forall|t: int| 0 <= t <= INTERNAL_NODE_MAX_CELLS implies #[trigger] cell_child(b, t) == cell_child(p, t) by {
        let o = internal_cell_offset(t);
        assert(b[o] == p[o] && b[o + 1] == p[o + 1] && b[o + 2] == p[o + 2] && b[o + 3] == p[o + 3]);
    }
}

/// The children of an internal root in a table whose rows are chained in key order are
/// distinct pages.
pub proof fn lemma_children_distinct(v: PagerView, i: int, j: int)
    requires
        rows_chained_in_order(v),
        !is_leaf(v.pages[0]),
        0 <= i < j <= num_keys(v.pages[0]),
    ensures
        child_at(v.pages[0], i) != child_at(v.pages[0], j),
{
    let r = v.pages[0];
    assert(child_leaf_in_place(v, i));
    assert(child_leaf_in_place(v, j));
    if child_at(r, i) == child_at(r, j) {
        let p = v.pages[child_at(r, i) as int];
        assert(leaf_key(p, 0) <= internal_key(r, i));
        assert(leaf_key(p, 0) > internal_key(r, j - 1));
        if i < j - 1 {
            assert(internal_key(r, i) < internal_key(r, j - 1));
        }
    }
}

/// An insertion into a root leaf, where the search stops, of a key it does not hold, keeps the
/// rows chained in key order: the root leaf grows, or splits into an internal root over two
/// leaves.
proof fn lemma_root_leaf_insert(v: PagerView, v1: PagerView, w: PagerView, cell: int, key: u32, value: Seq<u8>)
    requires
        tree_usable(v),
        rows_chained_in_order(v),
        is_leaf(v.pages[0]),
        v1.pages == v.pages,
        v1.num_pages == v.num_pages,
        is_leaf_lower_bound(v.pages[0], key, cell),
        value.len() == LEAF_NODE_VALUE_SIZE,
        leaf_insert_outcome(v1, w, 0, cell, key, value, Ok(())),
    ensures
        rows_chained_in_order(w),
{
    let a = v.pages[0];
    let n = leaf_num_cells(a) as int;
    let nc = cell_bytes(key, value);
    assert(node_ok(v.pages, v.num_pages, 0));
    assert(!(cell < n && leaf_key(a, cell) == key));
    if n < LEAF_NODE_MAX_CELLS {
        let b = w.pages[0];
        crate::laws::insertion_keeps_leaf_sorted(a, b, cell, key, value);
        assert(b[0] == a[0]);
        assert(b[10] == a[10] && b[11] == a[11] && b[12] == a[12] && b[13] == a[13]);
        assert(next_leaf(b) == next_leaf(a));
    } else {
        let m = merged_cells(a, cell, nc);
        assert(split_outcome(v1.pages, v1.num_pages, w, 0, cell, nc, Ok(())));
        lemma_merged_keys(a, cell, key, value);
        let r = w.pages[0];
        let left = 2int;
        let right = 1int;
        assert(crate::table::split_left(a, 1, 0) == left);
        assert(storage_ok(w));
        let pl = w.pages[left];
        let pr = w.pages[right];
        assert forall|i: int| 0 <= i < 7 implies #[trigger] leaf_key(pl, i) == be_u32(m[i], 0) by {
            crate::laws::lemma_key_of_cell(pl, i);
        }
        assert forall|i: int| 0 <= i < 7 implies #[trigger] leaf_key(pr, i) == be_u32(m[i + 7], 0) by {
            crate::laws::lemma_key_of_cell(pr, i);
        }
        assert(child_at(r, 0) == left && child_at(r, 1) == right);
        assert(internal_key(r, 0) == be_u32(m[6], 0));
        assert(child_leaf_in_place(w, 0)) by {
            assert forall|i: int, j: int| 0 <= i < j < leaf_num_cells(pl) implies leaf_key(pl, i) < leaf_key(pl, j) by {
                assert(be_u32(m[i], 0) < be_u32(m[j], 0));
            }
            assert forall|j: int| 0 <= j < leaf_num_cells(pl) implies #[trigger] leaf_key(pl, j) <= internal_key(r, 0) by {
                if j < 6 {
                    assert(be_u32(m[j], 0) < be_u32(m[6], 0));
                }
            }
        }
        assert(child_leaf_in_place(w, 1)) by {
            assert forall|i: int, j: int| 0 <= i < j < leaf_num_cells(pr) implies leaf_key(pr, i) < leaf_key(pr, j) by {
                assert(be_u32(m[i + 7], 0) < be_u32(m[j + 7], 0));
            }
            assert forall|j: int| 0 <= j < leaf_num_cells(pr) implies #[trigger] leaf_key(pr, j) > internal_key(r, 0) by {
                assert(be_u32(m[6], 0) < be_u32(m[j + 7], 0));
            }
        }
        assert forall|i: int| 0 <= i <= 1 implies #[trigger] child_leaf_in_place(w, i) by {
        }
        assert forall|q: int| 1 <= q < w.num_pages implies #[trigger] is_root_child(w, q) by {
            if q == 1 {
                assert(child_at(r, 1) as int == q);
            } else {
                assert(child_at(r, 0) as int == q);
            }
        }
    }
}

/// An insertion into a child leaf with room, where the search stops, of a key it does not hold,
/// keeps the rows chained in key order.
proof fn lemma_child_leaf_insert_room(v: PagerView, v1: PagerView, w: PagerView, r0: int, cell: int, key: u32, value: Seq<u8>)
    requires
        tree_usable(v),
        rows_chained_in_order(v),
        !is_leaf(v.pages[0]),
        crate::node::is_lower_bound(v.pages[0], key, r0),
        v1.pages == v.pages,
        v1.num_pages == v.num_pages,
        is_leaf_lower_bound(v.pages[child_at(v.pages[0], r0) as int], key, cell),
        leaf_num_cells(v.pages[child_at(v.pages[0], r0) as int]) < LEAF_NODE_MAX_CELLS,
        value.len() == LEAF_NODE_VALUE_SIZE,
        leaf_insert_outcome(v1, w, child_at(v.pages[0], r0) as int, cell, key, value, Ok(())),
    ensures
        rows_chained_in_order(w),
{
    let root = v.pages[0];
    let k = num_keys(root) as int;
    let pg = child_at(root, r0) as int;
    let a = v.pages[pg];
    let b = w.pages[pg];
    assert(child_leaf_in_place(v, r0));
    assert(!(cell < leaf_num_cells(a) && leaf_key(a, cell) == key));
    crate::laws::insertion_keeps_leaf_sorted(a, b, cell, key, value);
    assert(b[0] == a[0] && b[1] == a[1]);
    assert(b[2] == a[2] && b[3] == a[3] && b[4] == a[4] && b[5] == a[5]);
    assert(b[10] == a[10] && b[11] == a[11] && b[12] == a[12] && b[13] == a[13]);
    assert(w.pages[0] == root);
    assert forall|i: int| 0 <= i <= k implies #[trigger] child_leaf_in_place(w, i) by {
        assert(child_leaf_in_place(v, i));
        if child_at(root, i) as int == pg {
            if i != r0 {
                if i < r0 {
                    lemma_children_distinct(v, i, r0);
                } else {
                    lemma_children_distinct(v, r0, i);
                }
            }
            assert forall|j: int| 0 <= j < leaf_num_cells(b) implies (i < k ==> #[trigger] leaf_key(b, j) <= internal_key(root, i))
                && (i > 0 ==> leaf_key(b, j) > internal_key(root, i - 1)) by {
                if j < cell {
                    assert(leaf_key(b, j) == leaf_key(a, j));
                } else if j > cell {
                    assert(leaf_key(b, j) == leaf_key(a, j - 1));
                }
            }
        } else {
            assert(w.pages[child_at(root, i) as int] == v.pages[child_at(root, i) as int]);
        }
    }
    assert forall|q: int| 1 <= q < w.num_pages implies #[trigger] is_root_child(w, q) by {
        assert(is_root_child(v, q));
    }
}

/// What a split of full child leaf `r0` of the internal root leaves, with `s` the state just
/// before the new leaf is added to the root: the root not full, one page more, the other pages
/// kept, the root's key for the split leaf set to `m6`, the halves in place, and the root then
/// gaining the new leaf as a cell with key `m13` or as its right child.
#[verifier::opaque]
spec fn split_facts(v: PagerView, s: PagerView, w: PagerView, r0: int, m6: u32, m13: u32) -> bool {
    &&& num_keys(v.pages[0]) < INTERNAL_NODE_MAX_CELLS
    &&& 0 <= r0 <= num_keys(v.pages[0])
    &&& w.num_pages == v.num_pages + 1
    &&& forall|q: int| 0 <= q < TABLE_MAX_PAGES && q != 0 ==> #[trigger] w.pages[q] == s.pages[q]
    &&& forall|q: int| 0 <= q < v.num_pages && q != child_at(v.pages[0], r0) as int && q != 0 ==> #[trigger] s.pages[q] == v.pages[q]
    &&& is_internal(s.pages[0]) && root_flag(s.pages[0]) && num_keys(s.pages[0]) == num_keys(v.pages[0])
    &&& right_child(s.pages[0]) == right_child(v.pages[0])
    &&& internal_key(s.pages[0], r0) == m6
    &&& forall|t: int| 0 <= t < num_keys(v.pages[0]) && t != r0 ==> #[trigger] internal_key(s.pages[0], t) == internal_key(v.pages[0], t)
    &&& forall|t: int| 0 <= t <= INTERNAL_NODE_MAX_CELLS ==> #[trigger] cell_child(s.pages[0], t) == cell_child(v.pages[0], t)
    &&& max_key(s.pages[child_at(v.pages[0], r0) as int]) == m6
    &&& m13 <= max_key(s.pages[right_child(s.pages[0]) as int]) ==> exists|idx2: int|
        crate::node::is_lower_bound(s.pages[0], m13, idx2)
        && #[trigger] crate::table::internal_inserted(s.pages[0], w.pages[0], idx2, v.num_pages as u32, m13)
    &&& m13 > max_key(s.pages[right_child(s.pages[0]) as int]) ==>
        crate::table::internal_appended(s.pages[0], w.pages[0], v.num_pages as u32, max_key(s.pages[right_child(s.pages[0]) as int]))
    &&& halves_placed(v, w, r0, m6, m13)
}

/// What splitting full child leaf `r0` of the internal root for a new key leads to: the state
/// just before the new leaf is added to the root, the root's key for the leaf set to the left
/// half's largest key, the two halves, and the root then gaining the new leaf (the root not
/// being full).
#[verifier::spinoff_prover]
#[verifier::rlimit(60)]
proof fn lemma_child_split_facts(v: PagerView, v1: PagerView, w: PagerView, r0: int, cell: int, key: u32, value: Seq<u8>) -> (res: (PagerView, u32, u32))
    requires
        tree_usable(v),
        rows_chained_in_order(v),
        !is_leaf(v.pages[0]),
        crate::node::is_lower_bound(v.pages[0], key, r0),
        v1.pages == v.pages,
        v1.num_pages == v.num_pages,
        is_leaf_lower_bound(v.pages[child_at(v.pages[0], r0) as int], key, cell),
        leaf_num_cells(v.pages[child_at(v.pages[0], r0) as int]) >= LEAF_NODE_MAX_CELLS,
        value.len() == LEAF_NODE_VALUE_SIZE,
        leaf_insert_outcome(v1, w, child_at(v.pages[0], r0) as int, cell, key, value, Ok(())),
        w.num_pages <= v.num_pages + 1,
    ensures
        split_facts(v, res.0, w, r0, res.1, res.2),
{
    let root = v.pages[0];
    let k = num_keys(root) as int;
    let pg = child_at(root, r0) as int;
    let a = v.pages[pg];
    let n = v.num_pages as int;
    let nc = cell_bytes(key, value);
    let m = merged_cells(a, cell, nc);
    assert(child_leaf_in_place(v, r0));
    assert(node_ok(v.pages, v.num_pages, pg));
    assert(!(cell < leaf_num_cells(a) && leaf_key(a, cell) == key));
    assert(split_outcome(v1.pages, v1.num_pages, w, pg, cell, nc, Ok(())));
    lemma_merged_keys(a, cell, key, value);
    let s: PagerView = choose|s: PagerView| #[trigger] crate::table::leaf_split_mid(v.pages, v.num_pages, s, pg, cell, nc)
        && crate::table::internal_insert_outcome(s, w, parent_of(a) as int, n, Ok(()));
    assert(storage_ok(w));
    let pl = w.pages[pg];
    let pr = w.pages[n];
    let m6 = be_u32(m[6], 0);
    let m13 = be_u32(m[13], 0);
    assert forall|i: int| 0 <= i < 7 implies #[trigger] leaf_key(pl, i) == be_u32(m[i], 0) by {
        crate::laws::lemma_key_of_cell(pl, i);
    }
    assert forall|i: int| 0 <= i < 7 implies #[trigger] leaf_key(pr, i) == be_u32(m[i + 7], 0) by {
        crate::laws::lemma_key_of_cell(pr, i);
    }
    // the root's key for the leaf is at its place
    let idx = choose|idx: int| #[trigger] crate::node::is_lower_bound(root, max_key(a), idx)
        && s.pages[0] == put_u32(root, internal_cell_offset(idx) + INTERNAL_NODE_CHILD_SIZE, max_key(s.pages[pg]));
    assert(max_key(a) == leaf_key(a, 12));
    if idx < r0 {
        assert(leaf_key(a, 12) > internal_key(root, r0 - 1));
        if idx < r0 - 1 {
            assert(internal_key(root, idx) < internal_key(root, r0 - 1));
        }
    }
    if idx > r0 {
        assert(leaf_key(a, 12) <= internal_key(root, r0));
        if idx - 1 > r0 {
            assert(internal_key(root, r0) < internal_key(root, idx - 1));
        }
    }
    assert(idx == r0);
    assert(s.pages[pg] == w.pages[pg]);
    assert(s.pages[n] == w.pages[n]);
    assert(max_key(s.pages[pg]) == m6);
    assert(max_key(s.pages[n]) == m13);
    lemma_key_slot_write(root, r0, m6);
    let rt = s.pages[0];
    // the root is not full: a full root would split, taking two more pages
    if k >= INTERNAL_NODE_MAX_CELLS {
        assert(num_keys(rt) >= INTERNAL_NODE_MAX_CELLS);
        let u = crate::table::page_content(s);
        assert(crate::table::internal_split_outcome(u, w, 0, n, Ok(())));
        assert(root_flag(u.pages[0]));
        assert(w.num_pages == u.num_pages + 2);
        assert(false);
    }
    // the halves and their keys
    let lo = if r0 > 0 { internal_key(root, r0 - 1) as int } else { -1 };
    assert forall|i: int| 0 <= i < 14 implies lo < #[trigger] be_u32(m[i], 0) && (r0 < k ==> be_u32(m[i], 0) <= internal_key(root, r0)) by {
        if i < cell {
            assert(be_u32(m[i], 0) == leaf_key(a, i));
        } else if i > cell {
            assert(be_u32(m[i], 0) == leaf_key(a, i - 1));
        } else {
            assert(be_u32(m[i], 0) == key);
        }
    }
    assert(m6 < m13) by {
        assert(be_u32(m[6], 0) < be_u32(m[13], 0));
    }
    assert(leaf_keys_sorted(pl)) by {
        assert forall|i: int, j: int| 0 <= i < j < leaf_num_cells(pl) implies leaf_key(pl, i) < leaf_key(pl, j) by {
            assert(be_u32(m[i], 0) < be_u32(m[j], 0));
        }
    }
    assert(leaf_keys_sorted(pr)) by {
        assert forall|i: int, j: int| 0 <= i < j < leaf_num_cells(pr) implies leaf_key(pr, i) < leaf_key(pr, j) by {
            assert(be_u32(m[i + 7], 0) < be_u32(m[j + 7], 0));
        }
    }
    assert forall|j: int| 0 <= j < 7 implies lo < #[trigger] leaf_key(pl, j) <= m6 by {
        assert(lo < be_u32(m[j], 0));
        if j < 6 {
            assert(be_u32(m[j], 0) < be_u32(m[6], 0));
        }
    }
    assert forall|j: int| 0 <= j < 7 implies m6 < #[trigger] leaf_key(pr, j) <= m13 by {
        assert(be_u32(m[6], 0) < be_u32(m[j + 7], 0));
        if j < 6 {
            assert(be_u32(m[j + 7], 0) < be_u32(m[13], 0));
        }
    }
    if r0 < k {
        assert(be_u32(m[13], 0) <= internal_key(root, r0));
    }
    assert(lo < leaf_key(pl, 0));
    assert(halves_placed(v, w, r0, m6, m13)) by {
        reveal(halves_placed);
    }
    reveal(split_facts);
    (s, m6, m13)
}

/// Splitting a full child leaf of an internal root that is not full, for a key it does not
/// hold, where the search stops, keeps the rows chained in key order: the new leaf becomes the
/// child right after the split leaf.
proof fn lemma_child_leaf_split(v: PagerView, v1: PagerView, w: PagerView, r0: int, cell: int, key: u32, value: Seq<u8>)
    requires
        tree_usable(v),
        rows_chained_in_order(v),
        !is_leaf(v.pages[0]),
        crate::node::is_lower_bound(v.pages[0], key, r0),
        v1.pages == v.pages,
        v1.num_pages == v.num_pages,
        is_leaf_lower_bound(v.pages[child_at(v.pages[0], r0) as int], key, cell),
        leaf_num_cells(v.pages[child_at(v.pages[0], r0) as int]) >= LEAF_NODE_MAX_CELLS,
        value.len() == LEAF_NODE_VALUE_SIZE,
        leaf_insert_outcome(v1, w, child_at(v.pages[0], r0) as int, cell, key, value, Ok(())),
        w.num_pages <= v.num_pages + 1,
    ensures
        rows_chained_in_order(w),
{
    let (s, m6, m13) = lemma_child_split_facts(v, v1, w, r0, cell, key, value);
    lemma_child_split_finish(v, s, w, r0, m6, m13);
}

/// From what a split of child leaf `r0` leaves, the rows are still chained in key order.
#[verifier::spinoff_prover]
#[verifier::rlimit(40)]
proof fn lemma_child_split_finish(v: PagerView, s: PagerView, w: PagerView, r0: int, m6: u32, m13: u32)
    requires
        rows_chained_in_order(v),
        !is_leaf(v.pages[0]),
        split_facts(v, s, w, r0, m6, m13),
    ensures
        rows_chained_in_order(w),
{
    let root = v.pages[0];
    let k = num_keys(root) as int;
    let pg = child_at(root, r0) as int;
    let n = v.num_pages as int;
    let rt = s.pages[0];
    let wr = w.pages[0];
    assert forall|q: int| 1 <= q < v.num_pages && q != pg implies #[trigger] w.pages[q] == v.pages[q] by {
        reveal(split_facts);
        assert(w.pages[q] == s.pages[q]);
        assert(s.pages[q] == v.pages[q]);
    }
    assert(halves_placed(v, w, r0, m6, m13) && num_keys(root) < INTERNAL_NODE_MAX_CELLS && 0 <= r0 <= k
        && w.num_pages == v.num_pages + 1) by {
        reveal(split_facts);
    }
    assert(is_internal(rt) && root_flag(rt) && num_keys(rt) == k && right_child(rt) == right_child(root)
        && internal_key(rt, r0) == m6
        && (forall|t: int| 0 <= t < k && t != r0 ==> #[trigger] internal_key(rt, t) == internal_key(root, t))
        && (forall|t: int| 0 <= t <= INTERNAL_NODE_MAX_CELLS ==> #[trigger] cell_child(rt, t) == cell_child(root, t))) by {
        reveal(split_facts);
    }
    assert((r0 > 0 ==> internal_key(root, r0 - 1) < m6) && m6 < m13 && (r0 < k ==> m13 <= internal_key(root, r0))) by {
        reveal(halves_placed);
    }
    if r0 < k {
        let rc = right_child(root) as int;
        assert(m13 < max_key(v.pages[rc])) by {
            lemma_right_child_above(v, r0, m13);
        }
        assert(s.pages[rc] == v.pages[rc]) by {
            reveal(split_facts);
            lemma_children_distinct(v, r0, k);
            assert(child_at(root, k) == right_child(root));
            assert(child_leaf_in_place(v, k));
        }
        assert(exists|idx2: int| crate::node::is_lower_bound(rt, m13, idx2)
            && #[trigger] crate::table::internal_inserted(rt, wr, idx2, n as u32, m13)) by {
            reveal(split_facts);
        }
        lemma_root_gains_inner(root, rt, wr, r0, n, m6, m13);
    } else {
        assert(crate::table::internal_appended(rt, wr, n as u32, m6)) by {
            reveal(split_facts);
            assert(right_child(rt) as int == pg);
        }
        lemma_root_gains_last(root, rt, wr, r0, n, m6, m13);
    }
    lemma_chain_after_child_split(v, w, r0, m6, m13);
}

/// The internal root `wr` is `root` with page `n` added as the child right after child `r0`,
/// the key of child `r0` set to `m6` and, where `r0` is not the last child, the key `m13` given
/// to the new child.
spec fn root_gains_child(root: Seq<u8>, wr: Seq<u8>, r0: int, n: int, m6: u32, m13: u32) -> bool {
    let k = num_keys(root) as int;
    &&& is_internal(wr) && root_flag(wr) && num_keys(wr) == k + 1
    &&& forall|t: int| 0 <= t <= k + 1 ==> #[trigger] child_at(wr, t) as int == (if t <= r0 { child_at(root, t) as int }
        else if t == r0 + 1 { n } else { child_at(root, t - 1) as int })
    &&& forall|t: int| 0 <= t < k + 1 ==> #[trigger] internal_key(wr, t) == (if t < r0 { internal_key(root, t) }
        else if t == r0 { m6 } else if t == r0 + 1 { m13 } else { internal_key(root, t - 1) })
}

/// The two halves of split child leaf `r0` of the internal root of `v` stand in `w`: the left
/// half in the leaf's page with keys up to `m6`, the right half in page `n` with keys above
/// `m6` up to `m13`, linked in that order into the chain.
#[verifier::opaque]
spec fn halves_placed(v: PagerView, w: PagerView, r0: int, m6: u32, m13: u32) -> bool {
    let root = v.pages[0];
    let k = num_keys(root) as int;
    let pg = child_at(root, r0) as int;
    let n = v.num_pages as int;
    let pl = w.pages[pg];
    let pr = w.pages[n];
    let lo = if r0 > 0 { internal_key(root, r0 - 1) as int } else { -1 };
    &&& is_leaf(pl) && !root_flag(pl) && parent_of(pl) == 0 && leaf_num_cells(pl) == 7
    &&& is_leaf(pr) && !root_flag(pr) && parent_of(pr) == 0 && leaf_num_cells(pr) == 7
    &&& leaf_keys_sorted(pl) && leaf_keys_sorted(pr)
    &&& forall|j: int| 0 <= j < 7 ==> lo < #[trigger] leaf_key(pl, j) <= m6
    &&& forall|j: int| 0 <= j < 7 ==> m6 < #[trigger] leaf_key(pr, j) <= m13
    &&& lo < m6 < m13
    &&& next_leaf(pl) == n
    &&& next_leaf(pr) == next_leaf(v.pages[pg])
    &&& r0 < k ==> m13 <= internal_key(root, r0)
}

/// After a split of child leaf `r0` whose halves are in place, with the root gaining the new
/// leaf right after it and the other pages kept, the rows are still chained in key order.
#[verifier::spinoff_prover]
#[verifier::rlimit(40)]
proof fn lemma_chain_after_child_split(v: PagerView, w: PagerView, r0: int, m6: u32, m13: u32)
    requires
        rows_chained_in_order(v),
        !is_leaf(v.pages[0]),
        num_keys(v.pages[0]) < INTERNAL_NODE_MAX_CELLS,
        0 <= r0 <= num_keys(v.pages[0]),
        w.num_pages == v.num_pages + 1,
        forall|q: int| 1 <= q < v.num_pages && q != child_at(v.pages[0], r0) as int ==> #[trigger] w.pages[q] == v.pages[q],
        root_gains_child(v.pages[0], w.pages[0], r0, v.num_pages as int, m6, m13),
        halves_placed(v, w, r0, m6, m13),
    ensures
        rows_chained_in_order(w),
{
    reveal(halves_placed);
    let root = v.pages[0];
    let k = num_keys(root) as int;
    let pg = child_at(root, r0) as int;
    let n = v.num_pages as int;
    let wr = w.pages[0];
    assert(child_leaf_in_place(v, r0));
    assert forall|t: int| 0 <= t <= k + 1 implies #[trigger] child_leaf_in_place(w, t) by {
        assert(child_at(wr, t) as int == (if t <= r0 { child_at(root, t) as int } else if t == r0 + 1 { n } else { child_at(root, t - 1) as int }));
        if t < r0 {
            assert(child_leaf_in_place(v, t));
            lemma_children_distinct(v, t, r0);
            assert(w.pages[child_at(root, t) as int] == v.pages[child_at(root, t) as int]);
            assert(child_at(wr, t + 1) == child_at(root, t + 1));
            assert(internal_key(wr, t) == internal_key(root, t));
            if t > 0 {
                assert(internal_key(wr, t - 1) == internal_key(root, t - 1));
            }
        } else if t == r0 {
            assert(child_at(wr, t + 1) as int == n);
            assert(internal_key(wr, t) == m6);
            if t > 0 {
                assert(internal_key(wr, t - 1) == internal_key(root, t - 1));
            }
        } else if t == r0 + 1 {
            assert(internal_key(wr, r0) == m6);
            if r0 < k {
                assert(child_leaf_in_place(v, r0 + 1));
                assert(child_at(wr, t + 1) == child_at(root, r0 + 1));
                assert(internal_key(wr, t) == m13);
            }
        } else {
            assert(child_leaf_in_place(v, t - 1));
            lemma_children_distinct(v, r0, t - 1);
            let c = child_at(root, t - 1) as int;
            assert(w.pages[c] == v.pages[c]);
            let pc = v.pages[c];
            if t < k + 1 {
                assert(child_at(wr, t + 1) == child_at(root, t));
                assert(internal_key(wr, t) == internal_key(root, t - 1));
            }
            if t == r0 + 2 {
                assert(internal_key(wr, t - 1) == m13);
            } else {
                assert(internal_key(wr, t - 1) == internal_key(root, t - 2));
            }
            assert forall|j: int| 0 <= j < leaf_num_cells(pc) implies (t < k + 1 ==> #[trigger] leaf_key(pc, j) <= internal_key(wr, t))
                && (t > 0 ==> leaf_key(pc, j) > internal_key(wr, t - 1)) by {
                if t == r0 + 2 {
                    assert(leaf_key(pc, j) > internal_key(root, r0));
                }
            }
        }
    }
    assert forall|i: int, j: int| 0 <= i < j < k + 1 implies internal_key(wr, i) < internal_key(wr, j) by {
        assert(internal_key(wr, i) == (if i < r0 { internal_key(root, i) } else if i == r0 { m6 } else if i == r0 + 1 { m13 } else { internal_key(root, i - 1) }));
        assert(internal_key(wr, j) == (if j < r0 { internal_key(root, j) } else if j == r0 { m6 } else if j == r0 + 1 { m13 } else { internal_key(root, j - 1) }));
        if i < r0 && r0 > 0 {
            if i < r0 - 1 {
                assert(internal_key(root, i) < internal_key(root, r0 - 1));
            }
        }
        if j > r0 + 1 {
            if j - 1 > r0 {
                assert(internal_key(root, r0) < internal_key(root, j - 1));
            }
            if i > r0 + 1 {
                assert(internal_key(root, i - 1) < internal_key(root, j - 1));
            }
            if i < r0 {
                assert(internal_key(root, i) < internal_key(root, j - 1));
            }
        }
    }
    assert forall|q: int| 1 <= q < w.num_pages implies #[trigger] is_root_child(w, q) by {
        if q == n {
            assert(child_at(wr, r0 + 1) as int == q);
        } else {
            assert(is_root_child(v, q));
            let i = choose|i: int| 0 <= i <= k && #[trigger] child_at(root, i) as int == q;
            if i <= r0 {
                assert(child_at(wr, i) as int == q);
            } else {
                assert(child_at(wr, i + 1) as int == q);
            }
        }
    }
}

/// The right child of the internal root holds a key above `m13` when `m13` is at most the key
/// of an earlier child.
proof fn lemma_right_child_above(v: PagerView, r0: int, m13: u32)
    requires
        rows_chained_in_order(v),
        !is_leaf(v.pages[0]),
        0 <= r0 < num_keys(v.pages[0]),
        m13 <= internal_key(v.pages[0], r0),
    ensures
        m13 < max_key(v.pages[right_child(v.pages[0]) as int]),
{
    let root = v.pages[0];
    let k = num_keys(root) as int;
    assert(child_leaf_in_place(v, k));
    let prc = v.pages[right_child(root) as int];
    assert(max_key(prc) == leaf_key(prc, leaf_num_cells(prc) - 1));
    if r0 < k - 1 {
        assert(internal_key(root, r0) < internal_key(root, k - 1));
    }
}

/// The root after a split of child leaf `r0`, not the last, has the new leaf right after it:
/// its key for the split leaf set to `m6`, then the new leaf inserted with key `m13`.
proof fn lemma_root_gains_inner(root: Seq<u8>, rt: Seq<u8>, wr: Seq<u8>, r0: int, n: int, m6: u32, m13: u32)
    requires
        0 <= r0 < num_keys(root) < INTERNAL_NODE_MAX_CELLS,
        forall|i: int, j: int| 0 <= i < j < num_keys(root) ==> internal_key(root, i) < internal_key(root, j),
        is_internal(rt) && root_flag(rt) && num_keys(rt) == num_keys(root),
        right_child(rt) == right_child(root),
        internal_key(rt, r0) == m6,
        forall|t: int| 0 <= t < num_keys(root) && t != r0 ==> #[trigger] internal_key(rt, t) == internal_key(root, t),
        forall|t: int| 0 <= t <= INTERNAL_NODE_MAX_CELLS ==> #[trigger] cell_child(rt, t) == cell_child(root, t),
        r0 > 0 ==> internal_key(root, r0 - 1) < m6,
        m6 < m13,
        m13 <= internal_key(root, r0),
        exists|idx2: int| crate::node::is_lower_bound(rt, m13, idx2) && #[trigger] crate::table::internal_inserted(rt, wr, idx2, n as u32, m13),
        0 <= n < 0x1_0000_0000,
    ensures
        root_gains_child(root, wr, r0, n, m6, m13),
{
    let k = num_keys(root) as int;
    let idx2 = choose|idx2: int| crate::node::is_lower_bound(rt, m13, idx2) && #[trigger] crate::table::internal_inserted(rt, wr, idx2, n as u32, m13);
    if idx2 < r0 {
        assert(internal_key(rt, idx2) == internal_key(root, idx2));
        if idx2 < r0 - 1 {
            assert(internal_key(root, idx2) < internal_key(root, r0 - 1));
        }
        assert(internal_key(rt, idx2) >= m13);
    }
    if idx2 == r0 {
        assert(internal_key(rt, idx2) >= m13);
    }
    if idx2 > r0 + 1 {
        assert(internal_key(rt, idx2 - 1) < m13);
        assert(internal_key(rt, idx2 - 1) == internal_key(root, idx2 - 1));
        assert(internal_key(root, r0) < internal_key(root, idx2 - 1));
    }
    assert(idx2 == r0 + 1);
    assert(num_keys(wr) == k + 1);
    assert forall|t: int| 0 <= t <= k + 1 implies #[trigger] child_at(wr, t) as int == (if t <= r0 { child_at(root, t) as int }
        else if t == r0 + 1 { n } else { child_at(root, t - 1) as int }) by {
        if t <= r0 {
            assert(cell_child(wr, t) == cell_child(rt, t));
        } else if t > r0 + 1 && t < k + 1 {
            assert(cell_child(wr, t) == cell_child(rt, t - 1));
        }
    }
    assert forall|t: int| 0 <= t < k + 1 implies #[trigger] internal_key(wr, t) == (if t < r0 { internal_key(root, t) }
        else if t == r0 { m6 } else if t == r0 + 1 { m13 } else { internal_key(root, t - 1) }) by {
        if t <= r0 {
            assert(cell_child(wr, t) == cell_child(rt, t));
        } else if t > r0 + 1 {
            assert(cell_child(wr, t) == cell_child(rt, t - 1));
        }
    }
    assert(wr[0] == rt[0] && wr[1] == rt[1]);
}

/// The root after a split of its last child leaf has the new leaf as its right child, the
/// split leaf moved into a cell with key `m6`.
proof fn lemma_root_gains_last(root: Seq<u8>, rt: Seq<u8>, wr: Seq<u8>, r0: int, n: int, m6: u32, m13: u32)
    requires
        r0 == num_keys(root) < INTERNAL_NODE_MAX_CELLS,
        is_internal(rt) && root_flag(rt) && num_keys(rt) == num_keys(root),
        right_child(rt) == right_child(root),
        forall|t: int| 0 <= t < num_keys(root) && t != r0 ==> #[trigger] internal_key(rt, t) == internal_key(root, t),
        forall|t: int| 0 <= t <= INTERNAL_NODE_MAX_CELLS ==> #[trigger] cell_child(rt, t) == cell_child(root, t),
        crate::table::internal_appended(rt, wr, n as u32, m6),
        0 <= n < 0x1_0000_0000,
    ensures
        root_gains_child(root, wr, r0, n, m6, m13),
{
    let k = num_keys(root) as int;
    assert(num_keys(wr) == k + 1);
    assert(wr[0] == rt[0] && wr[1] == rt[1]);
    assert forall|t: int| 0 <= t <= k + 1 implies #[trigger] child_at(wr, t) as int == (if t <= r0 { child_at(root, t) as int }
        else if t == r0 + 1 { n } else { child_at(root, t - 1) as int }) by {
        if t < k {
            assert(cell_child(wr, t) == cell_child(rt, t));
        }
    }
    assert forall|t: int| 0 <= t < k + 1 implies #[trigger] internal_key(wr, t) == (if t < r0 { internal_key(root, t) }
        else if t == r0 { m6 } else if t == r0 + 1 { m13 } else { internal_key(root, t - 1) }) by {
        if t < k {
            assert(cell_child(wr, t) == cell_child(rt, t));
        }
    }
}

/// A successful insertion keeps the rows chained in key order as long as no internal page is
/// split: the root is a leaf, or the insertion adds at most one page (the new leaf of a split).
pub proof fn insertion_keeps_rows_chained_in_order(v: PagerView, w: PagerView, row: Row, r: Result<(), ExecuteError>)
    requires
        tree_usable(v),
        rows_chained_in_order(v),
        row.wf(),
        insert_executed(v, w, row, r),
        r is Ok,
        is_leaf(v.pages[0]) || w.num_pages <= v.num_pages + 1,
    ensures
        rows_chained_in_order(w),
{
    let (c, v1) = choose|c: CursorView, v1: PagerView| #[trigger] found_at(v.pages, 0, row.id, c, TABLE_MAX_PAGES as nat)
        && #[trigger] same_tree(v, v1)
        && leaf_insert_outcome(v1, w, c.page_num as int, c.cell_num as int, row.id, row.spec_bytes(),
            insert_table_result(r, row.id));
    crate::row::lemma_row_roundtrip(row.id, row.username@, row.email@);
    let value = row.spec_bytes();
    let cell = c.cell_num as int;
    let root = v.pages[0];
    if is_leaf(root) {
        assert(c.page_num == 0);
        lemma_root_leaf_insert(v, v1, w, cell, row.id, value);
    } else {
        let r0 = choose|r0: int| #[trigger] crate::node::is_lower_bound(root, row.id, r0)
            && reaches(v.pages, child_at(root, r0) as int, c.page_num as int, row.id, (TABLE_MAX_PAGES - 1) as nat);
        assert(child_leaf_in_place(v, r0));
        assert(c.page_num as int == child_at(root, r0) as int);
        if leaf_num_cells(v.pages[child_at(root, r0) as int]) < LEAF_NODE_MAX_CELLS {
            lemma_child_leaf_insert_room(v, v1, w, r0, cell, row.id, value);
        } else {
            lemma_child_leaf_split(v, v1, w, r0, cell, row.id, value);
        }
    }
}

/// A table whose rows are chained in key order is in key order from the root.
pub proof fn lemma_chained_keys_in_order(v: PagerView)
    requires
        rows_chained_in_order(v),
    ensures
        keys_in_order(v.pages, 0, -1, 0x1_0000_0000, TABLE_MAX_PAGES as nat),
{
    let r = v.pages[0];
    if !is_leaf(r) {
        let k = num_keys(r) as int;
        assert forall|i: int, j: int| 0 <= i <= j < k implies internal_key(r, i) <= internal_key(r, j) by {
            if i < j {
                assert(internal_key(r, i) < internal_key(r, j));
            }
        }
        assert forall|t: int| 0 <= t <= k implies keys_in_order(v.pages, #[trigger] child_at(r, t) as int,
            child_lo(r, t, -1), child_hi(r, t, 0x1_0000_0000), (TABLE_MAX_PAGES - 1) as nat) by {
            assert(child_leaf_in_place(v, t));
        }
    }
}

/// In a table whose rows are chained in key order, two cells of leaves in use that hold the
/// same key are the same cell.
pub proof fn lemma_chained_keys_distinct(v: PagerView, p1: int, i1: int, p2: int, i2: int)
    requires
        rows_chained_in_order(v),
        0 <= p1 < v.num_pages && is_leaf(v.pages[p1]) && 0 <= i1 < leaf_num_cells(v.pages[p1]),
        0 <= p2 < v.num_pages && is_leaf(v.pages[p2]) && 0 <= i2 < leaf_num_cells(v.pages[p2]),
        leaf_key(v.pages[p1], i1) == leaf_key(v.pages[p2], i2),
    ensures
        p1 == p2 && i1 == i2,
{
    let r = v.pages[0];
    if !is_leaf(r) {
        let k = num_keys(r) as int;
        assert(is_root_child(v, p1) && is_root_child(v, p2));
        let t1 = choose|t: int| 0 <= t <= k && #[trigger] child_at(r, t) as int == p1;
        let t2 = choose|t: int| 0 <= t <= k && #[trigger] child_at(r, t) as int == p2;
        assert(child_leaf_in_place(v, t1) && child_leaf_in_place(v, t2));
        if t1 < t2 {
            assert(leaf_key(v.pages[p1], i1) <= internal_key(r, t1));
            assert(leaf_key(v.pages[p2], i2) > internal_key(r, t2 - 1));
            if t1 < t2 - 1 {
                assert(internal_key(r, t1) < internal_key(r, t2 - 1));
            }
        } else if t2 < t1 {
            assert(leaf_key(v.pages[p2], i2) <= internal_key(r, t2));
            assert(leaf_key(v.pages[p1], i1) > internal_key(r, t1 - 1));
            if t2 < t1 - 1 {
                assert(internal_key(r, t2) < internal_key(r, t1 - 1));
            }
        }
    }
    assert(p1 == p2);
    if i1 < i2 {
        assert(leaf_key(v.pages[p1], i1) < leaf_key(v.pages[p1], i2));
    } else if i2 < i1 {
        assert(leaf_key(v.pages[p1], i2) < leaf_key(v.pages[p1], i1));
    }
}

/// After a successful insertion that splits no internal page into a table whose rows are
/// chained in key order, the search for the inserted id stops at the cell that holds the
/// inserted row.
pub proof fn inserted_row_is_found_in_chained_table(v: PagerView, w: PagerView, row: Row, r: Result<(), ExecuteError>, c2: CursorView)
    requires
        tree_usable(v),
        rows_chained_in_order(v),
        row.wf(),
        insert_executed(v, w, row, r),
        r is Ok,
        is_leaf(v.pages[0]) || w.num_pages <= v.num_pages + 1,
        found_at(w.pages, 0, row.id, c2, TABLE_MAX_PAGES as nat),
    ensures
        rows_chained_in_order(w),
        c2.cell_num < leaf_num_cells(w.pages[c2.page_num as int]),
        leaf_key(w.pages[c2.page_num as int], c2.cell_num as int) == row.id,
        leaf_value(w.pages[c2.page_num as int], c2.cell_num as int) == row.spec_bytes(),
{
    insertion_keeps_rows_chained_in_order(v, w, row, r);
    crate::laws::insert_stores_row_and_keeps_rows(v, w, row, r);
    crate::row::lemma_row_roundtrip(row.id, row.username@, row.email@);
    let cb = cell_bytes(row.id, row.spec_bytes());
    let (p, i) = choose|p: int, i: int| #[trigger] stored_at(w, cb, p, i);
    // the tree stays usable
    let (c, v1) = choose|c: CursorView, v1: PagerView| #[trigger] found_at(v.pages, 0, row.id, c, TABLE_MAX_PAGES as nat)
        && #[trigger] same_tree(v, v1)
        && leaf_insert_outcome(v1, w, c.page_num as int, c.cell_num as int, row.id, row.spec_bytes(),
            insert_table_result(r, row.id));
    assert(tree_usable(w));
    assert(node_ok(w.pages, w.num_pages, p));
    crate::laws::lemma_key_of_cell(w.pages[p], i);
    crate::laws::lemma_cell_bytes_parts(row.id, row.spec_bytes());
    assert(leaf_key(w.pages[p], i) == row.id);
    // the id is held, so the search finds it
    let root = w.pages[0];
    if is_leaf(root) {
        assert(p == 0);
    } else {
        assert(is_root_child(w, p));
        let t = choose|t: int| 0 <= t <= num_keys(root) && #[trigger] child_at(root, t) as int == p;
        assert(holds_key(w.pages, child_at(root, t) as int, row.id, (TABLE_MAX_PAGES - 1) as nat));
    }
    assert(holds_key(w.pages, 0, row.id, TABLE_MAX_PAGES as nat));
    lemma_chained_keys_in_order(w);
    crate::laws::search_finds_key_in_ordered_tree(w.pages, row.id, c2);
    crate::cursor::lemma_reaches_in_use(w, 0, c2.page_num as int, row.id, TABLE_MAX_PAGES as nat);
    lemma_chained_keys_distinct(w, p, i, c2.page_num as int, c2.cell_num as int);
}

/// A table opened on an empty file, its root an empty leaf flagged as root and its only page,
/// has its rows chained in key order.
pub proof fn fresh_table_has_rows_chained_in_order(v: PagerView, blank: Seq<u8>)
    requires
        blank.len() == PAGE_SIZE,
        v.num_pages == 1,
        v.pages[0] == crate::node::init_leaf(blank).update(1, 1u8),
    ensures
        rows_chained_in_order(v),
{
    let a = blank.update(0, 1u8).update(1, 0u8);
    let b = put_u32(a, crate::node::LEAF_NODE_NUM_CELLS_OFFSET as int, 0);
    crate::bytes::lemma_put_u32(a, crate::node::LEAF_NODE_NUM_CELLS_OFFSET as int, 0);
    crate::bytes::lemma_put_u32(b, crate::node::LEAF_NODE_NEXT_LEAF_OFFSET as int, 0);
    let c = put_u32(b, crate::node::LEAF_NODE_NEXT_LEAF_OFFSET as int, 0);
    let p = v.pages[0];
    assert(p[0] == c[0]);
    assert(p[10] == c[10] && p[11] == c[11] && p[12] == c[12] && p[13] == c[13]);
    assert(p[6] == c[6] && p[7] == c[7] && p[8] == c[8] && p[9] == c[9]);
    assert(be_u32(c, 6) == be_u32(b, 6));
    assert(leaf_num_cells(p) == 0);
}

}
