//! Positions in the leaves of the table, and the search for a key.
use crate::constants::TABLE_MAX_PAGES;
use crate::node::{
    child_at, is_internal, is_leaf, is_lower_bound, key_search, leaf_cell_fits, leaf_key, leaf_num_cells,
    leaf_value, next_leaf, num_keys, NodeKind, LEAF_NODE_MAX_CELLS,
};
use crate::row::Row;
use crate::table::{
    child_ok, fault_in, leaf_insert_outcome, node_ok, storage_ok, tree_usable, PagerError, PagerView,
    Table, TableError,
};
use vstd::prelude::*;

verus! {

#[derive(Debug)]
pub enum CursorError {
    TableError(TableError),
    InternalNodeSearch,
    LeafNodeFull,
    ParentUpdate,
}

/// A position in the table: a cell of a leaf page, and whether the end of the rows is reached.
pub struct Cursor {
    page_num: usize,
    cell_num: usize,
    end_of_table: bool,
}

/// What a cursor holds.
pub struct CursorView {
    pub page_num: nat,
    pub cell_num: nat,
    pub end_of_table: bool,
}

impl View for Cursor {
    type V = CursorView;

    closed spec fn view(&self) -> CursorView {
        CursorView {
            page_num: self.page_num as nat,
            cell_num: self.cell_num as nat,
            end_of_table: self.end_of_table,
        }
    }
}

/// The keys of leaf page `p` are strictly increasing.
pub open spec fn leaf_keys_sorted(p: Seq<u8>) -> bool {
    forall|i: int, j: int| 0 <= i < j < leaf_num_cells(p) ==> leaf_key(p, i) < leaf_key(p, j)
}

/// `r` is where the search for `key` among the cells of leaf page `p` stops: a cell index up to
/// the cell count, whose key, if there is one, is at or above `key`; when the keys are sorted,
/// every key before it is below `key` (so `r` is where `key` is, or where it belongs); and
/// it is past the last cell only when the last key is below `key`.
pub open spec fn is_leaf_lower_bound(p: Seq<u8>, key: u32, r: int) -> bool {
    &&& 0 <= r <= leaf_num_cells(p)
    &&& r < leaf_num_cells(p) ==> leaf_key(p, r) >= key
    &&& 0 < r == leaf_num_cells(p) ==> leaf_key(p, r - 1) < key
    &&& leaf_keys_sorted(p) ==> forall|i: int| 0 <= i < r ==> #[trigger] leaf_key(p, i) < key
}

/// `w` has the pages of `v`: only the set of pages brought in may differ.
pub open spec fn same_tree(v: PagerView, w: PagerView) -> bool {
    &&& w.pages == v.pages
    &&& w.num_pages == v.num_pages
    &&& w.file_length == v.file_length
}

/// The search for `key` from page `from` reaches leaf page `to` through at most `fuel`
/// internal pages: a leaf is reached at once, and an internal page passes the search on to its
/// child at a place where the search among its keys can stop.
pub open spec fn reaches(pages: Seq<Seq<u8>>, from: int, to: int, key: u32, fuel: nat) -> bool
    decreases fuel,
{
    if is_leaf(pages[from]) {
        to == from
    } else if fuel == 0 {
        false
    } else {
        exists|r: int| #[trigger] is_lower_bound(pages[from], key, r)
            && reaches(pages, child_at(pages[from], r) as int, to, key, (fuel - 1) as nat)
    }
}

/// Every path down from page `from` meets a leaf within `h` internal pages.
pub open spec fn height_le(pages: Seq<Seq<u8>>, from: int, h: nat) -> bool
    decreases h,
{
    if is_leaf(pages[from]) {
        true
    } else if h == 0 {
        false
    } else {
        forall|k: int| 0 <= k <= num_keys(pages[from]) ==> height_le(pages, #[trigger] child_at(pages[from], k) as int, (h - 1) as nat)
    }
}

/// Cursor `c` is what the search for `key` from page `from` gives: it stands on a leaf that
/// the search reaches within `fuel` internal pages, at a cell where the search among the
/// leaf's keys can stop, and it is at the end exactly when that leaf is empty.
pub open spec fn found_at(pages: Seq<Seq<u8>>, from: int, key: u32, c: CursorView, fuel: nat) -> bool {
    &&& reaches(pages, from, c.page_num as int, key, fuel)
    &&& is_leaf(pages[c.page_num as int])
    &&& is_leaf_lower_bound(pages[c.page_num as int], key, c.cell_num as int)
    &&& c.end_of_table == (leaf_num_cells(pages[c.page_num as int]) == 0)
}

/// Where a cursor on page `c.page_num` of `pages` stands after one step: the next cell; past
/// the last cell, the first cell of the next leaf, or the end when there is no next leaf.
pub open spec fn advanced(pages: Seq<Seq<u8>>, c: CursorView) -> CursorView {
    let p = pages[c.page_num as int];
    let cell = c.cell_num + 1;
    if cell >= leaf_num_cells(p) {
        if next_leaf(p) == 0 {
            CursorView { page_num: c.page_num, cell_num: cell, end_of_table: true }
        } else {
            CursorView { page_num: next_leaf(p) as nat, cell_num: 0, end_of_table: c.end_of_table }
        }
    } else {
        CursorView { page_num: c.page_num, cell_num: cell, end_of_table: c.end_of_table }
    }
}

/// The outcome of a leaf insertion behind a cursor error.
pub open spec fn table_result(r: Result<(), CursorError>) -> Result<(), TableError> {
    match r {
        Ok(v) => Ok(v),
        Err(CursorError::TableError(e)) => Err(e),
        Err(_) => Err(TableError::InternalNodeFull),
    }
}

/// Bringing pages in keeps a usable tree usable.
pub proof fn lemma_same_tree_usable(v: PagerView, w: PagerView)
    requires
        tree_usable(v),
        storage_ok(w),
        same_tree(v, w),
    ensures
        tree_usable(w),
{
}

impl Cursor {
    /// The page the cursor stands on.
    pub fn page_num(&self) -> (r: usize)
        ensures
            r == self@.page_num,
    {
        self.page_num
    }

    /// The cell the cursor stands on.
    pub fn cell_num(&self) -> (r: usize)
        ensures
            r == self@.cell_num,
    {
        self.cell_num
    }

    /// Whether the cursor has passed the last row.
    pub fn at_end(&self) -> (r: bool)
        ensures
            r == self@.end_of_table,
    {
        self.end_of_table
    }

    /// Binary search of leaf page `page_num` for `key`: a cursor on the cell holding `key`, or
    /// on the cell where it belongs.
    pub fn leaf_node_find(table: &mut Table, page_num: usize, key: u32) -> (r: Result<Cursor, CursorError>)
        requires
            old(table).wf(),
            tree_usable(old(table)@),
            page_num < old(table)@.num_pages,
            is_leaf(old(table)@.pages[page_num as int]),
        ensures
            final(table).wf(),
            tree_usable(final(table)@),
            same_tree(old(table)@, final(table)@),
            r matches Ok(c) && c@.page_num == page_num
                && is_leaf_lower_bound(old(table)@.pages[page_num as int], key, c@.cell_num as int)
                && c@.end_of_table == (leaf_num_cells(old(table)@.pages[page_num as int]) == 0),
    {
        let ghost v0 = table@;
        let ghost p = v0.pages[page_num as int];
        proof {
            assert(node_ok(v0.pages, v0.num_pages, page_num as int));
        }
        let node = match table.get_node_mut(page_num) {
            Ok(n) => n,
            Err(e) => {
                return Err(CursorError::TableError(e));
            },
        };
        proof {
            lemma_same_tree_usable(v0, table@);
        }
        let num_cells = node.leaf_node_num_cells() as usize;
        // binary search
        let mut min_index: usize = 0;
        let mut one_past_max_index: usize = num_cells;
        while one_past_max_index != min_index
            invariant
                table.wf(),
                tree_usable(table@),
                same_tree(old(table)@, table@),
                p == old(table)@.pages[page_num as int],
                node.wf(),
                node@ == p,
                is_leaf(p),
                num_cells == leaf_num_cells(p) <= LEAF_NODE_MAX_CELLS,
                min_index <= one_past_max_index <= num_cells,
                one_past_max_index < num_cells ==> leaf_key(p, one_past_max_index as int) > key,
                min_index > 0 ==> leaf_key(p, min_index - 1) < key,
                leaf_keys_sorted(p) ==> forall|i: int| 0 <= i < min_index ==> #[trigger] leaf_key(p, i) < key,
            decreases one_past_max_index - min_index,
        {
            let index = (min_index + one_past_max_index) / 2;
            let key_at_index = node.get_leaf_node_key(index);
            if key == key_at_index {
                proof {
                    if leaf_keys_sorted(p) {
                        assert forall|i: int| 0 <= i < index implies #[trigger] leaf_key(p, i) < key by {
                            assert(leaf_key(p, i) < leaf_key(p, index as int));
                        }
                    }
                }
                return Ok(Cursor { page_num, cell_num: index, end_of_table: num_cells == 0 });
            }
            if key < key_at_index {
                one_past_max_index = index;
            } else {
                proof {
                    if leaf_keys_sorted(p) {
                        assert forall|i: int| 0 <= i < index + 1 implies #[trigger] leaf_key(p, i) < key by {
                            if i < index {
                                assert(leaf_key(p, i) < leaf_key(p, index as int));
                            }
                        }
                    }
                }
                min_index = index + 1;
            }
        }
        Ok(Cursor { page_num, cell_num: min_index, end_of_table: num_cells == 0 })
    }

    /// Binary search of internal page `page_num` for `key`: the index of the child to follow,
    /// the one that `Node::internal_node_find_child` gives on that page.
    pub fn internal_node_find_child(table: &mut Table, page_num: usize, key: u32) -> (r: Result<usize, CursorError>)
        requires
            old(table).wf(),
            tree_usable(old(table)@),
            page_num < old(table)@.num_pages,
            is_internal(old(table)@.pages[page_num as int]),
        ensures
            final(table).wf(),
            tree_usable(final(table)@),
            same_tree(old(table)@, final(table)@),
            r matches Ok(i) && is_lower_bound(old(table)@.pages[page_num as int], key, i as int)
                && i == key_search(old(table)@.pages[page_num as int], key, 0, num_keys(old(table)@.pages[page_num as int]) as int),
    {
        let ghost v0 = table@;
        proof {
            assert(node_ok(v0.pages, v0.num_pages, page_num as int));
        }
        let node = match table.get_node_mut(page_num) {
            Ok(n) => n,
            Err(e) => {
                return Err(CursorError::TableError(e));
            },
        };
        proof {
            lemma_same_tree_usable(v0, table@);
        }
        Ok(node.internal_node_find_child(key))
    }

    /// Follows the search for `key` down from internal page `page_num`, through at most `fuel`
    /// internal pages, to a leaf, and searches that leaf.
    fn internal_node_find_within(table: &mut Table, page_num: usize, key: u32, fuel: usize) -> (r: Result<Cursor, CursorError>)
        requires
            old(table).wf(),
            tree_usable(old(table)@),
            page_num < old(table)@.num_pages,
            is_internal(old(table)@.pages[page_num as int]),
        ensures
            final(table).wf(),
            tree_usable(final(table)@),
            same_tree(old(table)@, final(table)@),
            r matches Ok(c) ==> found_at(old(table)@.pages, page_num as int, key, c@, fuel as nat),
            r matches Err(e) ==> e matches CursorError::TableError(TableError::NodeNotFound(_)),
            height_le(old(table)@.pages, page_num as int, fuel as nat) ==> r is Ok,
        decreases fuel,
    {
        let ghost v0 = table@;
        let ghost pg = v0.pages[page_num as int];
        if fuel == 0 {
            return Err(CursorError::TableError(TableError::NodeNotFound(page_num)));
        }
        proof {
            assert(node_ok(v0.pages, v0.num_pages, page_num as int));
        }
        let child_index = match Self::internal_node_find_child(table, page_num, key) {
            Ok(i) => i,
            Err(e) => {
                return Err(e);
            },
        };
        let ghost v1 = table@;
        let node = match table.get_node_mut(page_num) {
            Ok(n) => n,
            Err(e) => {
                return Err(CursorError::TableError(e));
            },
        };
        proof {
            lemma_same_tree_usable(v0, table@);
            assert(child_ok(v0.num_pages, page_num as int, child_at(pg, child_index as int)));
        }
        let child_num = match node.get_internal_node_child(child_index) {
            Ok(c) => c as usize,
            Err(e) => {
                return Err(CursorError::TableError(e));
            },
        };
        let ghost v2 = table@;
        proof {
            assert(node_ok(v0.pages, v0.num_pages, child_num as int));
        }
        let child_type = match table.get_node_mut(child_num) {
            Ok(n) => n.get_node_type(),
            Err(e) => {
                return Err(CursorError::TableError(e));
            },
        };
        proof {
            lemma_same_tree_usable(v0, table@);
        }
        let r = match child_type {
            NodeKind::Internal => Self::internal_node_find_within(table, child_num, key, fuel - 1),
            NodeKind::Leaf => Self::leaf_node_find(table, child_num, key),
        };
        proof {
            let f = (fuel - 1) as nat;
            let ch = child_num as int;
            assert(ch == child_at(v0.pages[page_num as int], child_index as int) as int);
            if r is Ok {
                let c = r->Ok_0;
                lemma_reaches_step(v0.pages, page_num as int, c@.page_num as int, key, fuel as nat, child_index as int);
            }
            if height_le(v0.pages, page_num as int, fuel as nat) {
                lemma_height_step(v0.pages, page_num as int, fuel as nat, child_index as int);
            }
        }
        r
    }

    /// Follows the search for `key` down from internal page `page_num` to a leaf, and searches
    /// that leaf. The descent gives up after `TABLE_MAX_PAGES` internal pages.
    pub fn internal_node_find(table: &mut Table, page_num: usize, key: u32) -> (r: Result<Cursor, CursorError>)
        requires
            old(table).wf(),
            tree_usable(old(table)@),
            page_num < old(table)@.num_pages,
            is_internal(old(table)@.pages[page_num as int]),
        ensures
            final(table).wf(),
            tree_usable(final(table)@),
            same_tree(old(table)@, final(table)@),
            r matches Ok(c) ==> found_at(old(table)@.pages, page_num as int, key, c@, TABLE_MAX_PAGES as nat),
            r matches Err(e) ==> e matches CursorError::TableError(TableError::NodeNotFound(_)),
            height_le(old(table)@.pages, page_num as int, TABLE_MAX_PAGES as nat) ==> r is Ok,
    {
        Self::internal_node_find_within(table, page_num, key, TABLE_MAX_PAGES)
    }

    /// The search for `key` from the root.
    pub fn table_find(table: &mut Table, key: u32) -> (r: Result<Cursor, CursorError>)
        requires
            old(table).wf(),
            tree_usable(old(table)@),
        ensures
            final(table).wf(),
            tree_usable(final(table)@),
            same_tree(old(table)@, final(table)@),
            r matches Ok(c) ==> found_at(old(table)@.pages, 0, key, c@, TABLE_MAX_PAGES as nat),
            r matches Err(e) ==> e matches CursorError::TableError(TableError::NodeNotFound(_)),
            height_le(old(table)@.pages, 0, TABLE_MAX_PAGES as nat) ==> r is Ok,
    {
        let ghost v0 = table@;
        let root_page_num = table.root_page_num();
        proof {
            assert(node_ok(v0.pages, v0.num_pages, 0));
        }
        let node_type = match table.get_node_mut(root_page_num) {
            Ok(n) => n.get_node_type(),
            Err(e) => {
                return Err(CursorError::TableError(e));
            },
        };
        proof {
            lemma_same_tree_usable(v0, table@);
        }
        match node_type {
            NodeKind::Leaf => Self::leaf_node_find(table, root_page_num, key),
            NodeKind::Internal => Self::internal_node_find(table, root_page_num, key),
        }
    }

    /// A cursor on the first row: the search for key 0 (the root page number), at the end
    /// exactly when the leaf it lands on is empty.
    pub fn table_start(table: &mut Table) -> (r: Result<Cursor, CursorError>)
        requires
            old(table).wf(),
            tree_usable(old(table)@),
        ensures
            final(table).wf(),
            tree_usable(final(table)@),
            same_tree(old(table)@, final(table)@),
            r matches Ok(c) ==> found_at(old(table)@.pages, 0, 0, c@, TABLE_MAX_PAGES as nat),
            r matches Err(e) ==> e matches CursorError::TableError(TableError::NodeNotFound(_)),
            height_le(old(table)@.pages, 0, TABLE_MAX_PAGES as nat) ==> r is Ok,
    {
        let ghost v0 = table@;
        let root_page_num = table.root_page_num();
        let mut cursor = match Self::table_find(table, root_page_num as u32) {
            Ok(c) => c,
            Err(e) => {
                return Err(e);
            },
        };
        let ghost v1 = table@;
        proof {
            assert(reaches(v0.pages, 0, cursor.page_num as int, 0, TABLE_MAX_PAGES as nat));
            lemma_reaches_in_use(v0, 0, cursor.page_num as int, 0, TABLE_MAX_PAGES as nat);
            assert(node_ok(v0.pages, v0.num_pages, cursor.page_num as int));
        }
        let num_cells = match table.get_node_mut(cursor.page_num) {
            Ok(n) => n.leaf_node_num_cells(),
            Err(e) => {
                return Err(CursorError::TableError(e));
            },
        };
        proof {
            lemma_same_tree_usable(v0, table@);
        }
        cursor.end_of_table = num_cells == 0;
        Ok(cursor)
    }

    /// The value bytes of the cell under the cursor, if its page has been brought in.
    pub fn cursor_value(&self, table: &Table) -> (r: Result<Option<Vec<u8>>, CursorError>)
        requires
            table.wf(),
            leaf_cell_fits(self@.cell_num as int),
        ensures
            self@.page_num >= TABLE_MAX_PAGES ==> r == Err::<Option<Vec<u8>>, CursorError>(
                CursorError::TableError(TableError::PagerError(PagerError::OutOfBounds(self@.page_num as usize)))),
            self@.page_num < TABLE_MAX_PAGES && !table@.cached[self@.page_num as int] ==> r matches Ok(None),
            self@.page_num < TABLE_MAX_PAGES && table@.cached[self@.page_num as int] ==>
                (r matches Ok(Some(v)) && v@ == leaf_value(table@.pages[self@.page_num as int], self@.cell_num as int)),
    {
        match table.get_leaf_value(self.page_num, self.cell_num) {
            Ok(v) => Ok(v),
            Err(e) => Err(CursorError::TableError(e)),
        }
    }

    /// The value bytes of the cell under the cursor, bringing its page in.
    pub fn cursor_value_mut(&self, table: &mut Table) -> (r: Result<Vec<u8>, CursorError>)
        requires
            old(table).wf(),
            leaf_cell_fits(self@.cell_num as int),
        ensures
            final(table).wf(),
            self@.page_num >= TABLE_MAX_PAGES ==> r == Err::<Vec<u8>, CursorError>(
                CursorError::TableError(TableError::PagerError(PagerError::OutOfBounds(self@.page_num as usize))))
                && final(table)@ == old(table)@,
            self@.page_num < TABLE_MAX_PAGES ==> (r matches Ok(v)
                && v@ == leaf_value(old(table)@.pages[self@.page_num as int], self@.cell_num as int)
                && final(table)@ == fault_in(old(table)@, self@.page_num as int)),
    {
        match table.get_leaf_value_mut(self.page_num, self.cell_num) {
            Ok(v) => Ok(v),
            Err(e) => Err(CursorError::TableError(e)),
        }
    }

    /// Moves the cursor one cell on (see `advanced`).
    pub fn cursor_advance(&mut self, table: &mut Table) -> (r: Result<(), CursorError>)
        requires
            old(table).wf(),
            tree_usable(old(table)@),
            old(self)@.page_num < old(table)@.num_pages,
            is_leaf(old(table)@.pages[old(self)@.page_num as int]),
            old(self)@.cell_num < usize::MAX,
        ensures
            final(table).wf(),
            tree_usable(final(table)@),
            same_tree(old(table)@, final(table)@),
            r is Ok,
            final(self)@ == advanced(old(table)@.pages, old(self)@),
    {
        let ghost v0 = table@;
        let node = match table.get_node_mut(self.page_num) {
            Ok(n) => n,
            Err(e) => {
                return Err(CursorError::TableError(e));
            },
        };
        proof {
            lemma_same_tree_usable(v0, table@);
        }
        self.cell_num = self.cell_num + 1;
        let num_cells = node.leaf_node_num_cells() as usize;
        if self.cell_num >= num_cells {
            let next_page_num = node.get_leaf_node_next_leaf();
            if next_page_num == 0 {
                self.end_of_table = true;
            } else {
                self.page_num = next_page_num as usize;
                self.cell_num = 0;
            }
        }
        Ok(())
    }

    /// Inserts the cell `key`, `row` where the cursor stands (see `Table::leaf_node_insert`).
    pub fn leaf_node_insert(&self, table: &mut Table, key: u32, row: &Row) -> (r: Result<(), CursorError>)
        requires
            old(table).wf(),
            tree_usable(old(table)@),
            self@.page_num < old(table)@.num_pages,
            is_leaf(old(table)@.pages[self@.page_num as int]),
            self@.cell_num <= leaf_num_cells(old(table)@.pages[self@.page_num as int]),
            row.wf(),
        ensures
            final(table).wf(),
            leaf_insert_outcome(old(table)@, final(table)@, self@.page_num as int, self@.cell_num as int, key, row.spec_bytes(), table_result(r)),
            r matches Err(e) ==> e is TableError,
    {
        let r0 = table.leaf_node_insert(self.page_num, self.cell_num, key, row);
        match r0 {
            Ok(v) => Ok(v),
            Err(e) => {
                proof {
                    assert(table_result(Err(CursorError::TableError(e))) == r0);
                }
                Err(CursorError::TableError(e))
            },
        }
    }
}

/// A search step: from an internal page through a child at a place where the search among its
/// keys can stop.
proof fn lemma_reaches_step(pages: Seq<Seq<u8>>, from: int, to: int, key: u32, fuel: nat, r: int)
    requires
        !is_leaf(pages[from]),
        fuel > 0,
        is_lower_bound(pages[from], key, r),
        reaches(pages, child_at(pages[from], r) as int, to, key, (fuel - 1) as nat),
    ensures
        reaches(pages, from, to, key, fuel),
{
    assert(is_lower_bound(pages[from], key, r));
}

/// The first step of a search that reaches a leaf from an internal page.
proof fn lemma_reaches_unfold(pages: Seq<Seq<u8>>, from: int, to: int, key: u32, fuel: nat) -> (r: int)
    requires
        reaches(pages, from, to, key, fuel),
        !is_leaf(pages[from]),
    ensures
        fuel > 0,
        is_lower_bound(pages[from], key, r),
        reaches(pages, child_at(pages[from], r) as int, to, key, (fuel - 1) as nat),
{
    choose|r2: int| #[trigger] is_lower_bound(pages[from], key, r2)
        && reaches(pages, child_at(pages[from], r2) as int, to, key, (fuel - 1) as nat)
}

/// Below an internal page of bounded height, every child has height one less.
proof fn lemma_height_step(pages: Seq<Seq<u8>>, from: int, h: nat, k: int)
    requires
        height_le(pages, from, h),
        !is_leaf(pages[from]),
        0 <= k <= num_keys(pages[from]),
    ensures
        h > 0,
        height_le(pages, child_at(pages[from], k) as int, (h - 1) as nat),
{
}

/// A leaf that the search from a page in use reaches is in use.
pub proof fn lemma_reaches_in_use(v: PagerView, from: int, to: int, key: u32, fuel: nat)
    requires
        tree_usable(v),
        0 <= from < v.num_pages,
        reaches(v.pages, from, to, key, fuel),
    ensures
        0 <= to < v.num_pages,
        is_leaf(v.pages[to]),
    decreases fuel,
{
    assert(node_ok(v.pages, v.num_pages, from));
    if !is_leaf(v.pages[from]) {
        let r = lemma_reaches_unfold(v.pages, from, to, key, fuel);
        assert(crate::table::internal_ok(v.pages, v.num_pages, from));
        assert(child_ok(v.num_pages, from, child_at(v.pages[from], r)));
        lemma_reaches_in_use(v, child_at(v.pages[from], r) as int, to, key, (fuel - 1) as nat);
    }
}

} // verus!
