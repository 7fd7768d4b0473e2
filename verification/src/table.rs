//! The page store and the B-tree operations on it.
use crate::bytes::{copy_out, put_bytes, put_u32};
use crate::constants::{PAGE_SIZE, TABLE_MAX_PAGES};
use crate::node::{
    cell_child, child_at, entries_written, has_kind, is_lower_bound, internal_cell_offset, internal_key, right_child, has_root_flag, init_internal, init_leaf, internal_cell_fits, is_internal,
    is_leaf, kind_of, leaf_cell, leaf_cell_fits, leaf_cell_offset, leaf_key, leaf_num_cells,
    leaf_value, max_key, next_leaf, num_keys, parent_of, root_flag,
};
use crate::cursor::same_tree;
use crate::row::Row;
use vstd::prelude::*;

pub use crate::node::{Node, NodeKind};
pub use crate::node::{
    INTERNAL_NODE_MAX_CELLS, LEAF_NODE_CELL_SIZE, LEAF_NODE_HEADER_SIZE, LEAF_NODE_KEY_SIZE,
    LEAF_NODE_MAX_CELLS, LEAF_NODE_VALUE_SIZE,
    COMMON_NODE_HEADER_SIZE, INTERNAL_NODE_CELL_SIZE, INTERNAL_NODE_CHILD_SIZE,
    INTERNAL_NODE_HEADER_SIZE, INTERNAL_NODE_KEY_SIZE, INTERNAL_NODE_LEFT_SPLIT_COUNT,
    INTERNAL_NODE_NUM_KEYS_OFFSET, INTERNAL_NODE_NUM_KEY_SIZE, INTERNAL_NODE_RIGHT_CHILD_OFFSET,
    INTERNAL_NODE_RIGHT_CHILD_SIZE, INTERNAL_NODE_RIGHT_SPLIT_COUNT, INVALID_PAGE_NUM,
    IS_ROOT_OFFSET, IS_ROOT_SIZE, LEAF_NODE_KEY_OFFSET, LEAF_NODE_LEFT_SPLIT_COUNT,
    LEAF_NODE_NEXT_LEAF_OFFSET, LEAF_NODE_NEXT_LEAF_SIZE, LEAF_NODE_NUM_CELLS_OFFSET,
    LEAF_NODE_NUM_CELLS_SIZE, LEAF_NODE_RIGHT_SPLIT_COUNT, LEAF_NODE_SPACE_FOR_CELLS,
    LEAF_NODE_VALUE_OFFSET, NODE_TYPE_OFFSET, NODE_TYPE_SIZE, PARENT_POINTER_OFFSET,
    PARENT_POINTER_SIZE,
};

verus! {

#[derive(Debug)]
pub enum PagerError {
    OutOfBounds(usize),
    NullFlush,
    PartialPageSize,
}

#[derive(Debug)]
pub enum TableError {
    PagerError(PagerError),
    InternalNodeFull,
    DuplicateKey(u32),
    NodeNotFound(usize),
    RightChildInvalid(u32),
    ChildInvalid(u32),
    PageOutOfBounds(usize, usize),
}

/// What the page store holds: the length of the file it was opened on, the number of pages
/// in use, the content of every page (the file's bytes, zeros past its end, as changed
/// since), and which pages have been brought in and will be written back on a flush.
pub struct PagerView {
    pub file_length: nat,
    pub num_pages: nat,
    pub pages: Seq<Seq<u8>>,
    pub cached: Seq<bool>,
}

/// The page store of the table.
pub struct Pager {
    file_length: usize,
    num_pages: usize,
    pages: Vec<Vec<u8>>,
    cached: Vec<bool>,
}

impl View for Pager {
    type V = PagerView;

    closed spec fn view(&self) -> PagerView {
        PagerView {
            file_length: self.file_length as nat,
            num_pages: self.num_pages as nat,
            pages: self.pages@.map_values(|p: Vec<u8>| p@),
            cached: self.cached@,
        }
    }
}

/// The storage has its fixed shape: `TABLE_MAX_PAGES` pages of `PAGE_SIZE` bytes, and every
/// page brought in is counted in `num_pages`.
pub open spec fn storage_ok(v: PagerView) -> bool {
    &&& v.pages.len() == TABLE_MAX_PAGES
    &&& v.cached.len() == TABLE_MAX_PAGES
    &&& forall|p: int| 0 <= p < TABLE_MAX_PAGES ==> (#[trigger] v.pages[p]).len() == PAGE_SIZE
    &&& forall|p: int| 0 <= p < TABLE_MAX_PAGES && #[trigger] v.cached[p] ==> p < v.num_pages
}

/// The zero-padded content of page `p` of a file.
pub open spec fn file_page(file: Seq<u8>, p: int) -> Seq<u8> {
    Seq::new(PAGE_SIZE as nat, |i: int| if p * PAGE_SIZE + i < file.len() { file[p * PAGE_SIZE + i] } else { 0u8 })
}

/// `v` after page `p` is brought in.
pub open spec fn fault_in(v: PagerView, p: int) -> PagerView {
    PagerView {
        file_length: v.file_length,
        num_pages: if p >= v.num_pages { (p + 1) as nat } else { v.num_pages },
        pages: v.pages,
        cached: v.cached.update(p, true),
    }
}

/// `v` with page `p` replaced by `bytes`.
pub open spec fn with_page(v: PagerView, p: int, bytes: Seq<u8>) -> PagerView {
    PagerView { pages: v.pages.update(p, bytes), ..v }
}

impl Pager {
    pub open spec fn wf(&self) -> bool {
        storage_ok(self@)
    }

    /// Opens a page store on the bytes of a database file; a file that is not a whole number
    /// of pages is refused.
    pub fn pager_open(file: &[u8]) -> (r: Result<Pager, PagerError>)
        ensures
            file@.len() % (PAGE_SIZE as nat) != 0 ==> r matches Err(PagerError::PartialPageSize),
            file@.len() % (PAGE_SIZE as nat) == 0 ==> (r matches Ok(pager) && pager.wf()
                && pager@.file_length == file@.len()
                && pager@.num_pages == file@.len() / (PAGE_SIZE as nat)
                && (forall|p: int| 0 <= p < TABLE_MAX_PAGES ==> #[trigger] pager@.pages[p] == file_page(file@, p))
                && (forall|p: int| 0 <= p < TABLE_MAX_PAGES ==> !#[trigger] pager@.cached[p])),
    {
        let file_length = file.len();
        if file_length % PAGE_SIZE != 0 {
            return Err(PagerError::PartialPageSize);
        }
        let num_pages = file_length / PAGE_SIZE;
        let mut pages: Vec<Vec<u8>> = Vec::new();
        let mut cached: Vec<bool> = Vec::new();
        let mut p: usize = 0;
        while p < TABLE_MAX_PAGES
            invariant
                p <= TABLE_MAX_PAGES,
                file_length == file@.len(),
                pages@.len() == p,
                cached@.len() == p,
                forall|q: int| 0 <= q < p ==> (#[trigger] pages@[q])@ == file_page(file@, q),
                forall|q: int| 0 <= q < p ==> !#[trigger] cached@[q],
            decreases TABLE_MAX_PAGES - p,
        {
            let mut page: Vec<u8> = Vec::new();
            let mut i: usize = 0;
            while i < PAGE_SIZE
                invariant
                    p < TABLE_MAX_PAGES,
                    i <= PAGE_SIZE,
                    file_length == file@.len(),
                    page@ == file_page(file@, p as int).take(i as int),
                decreases PAGE_SIZE - i,
            {
                let at = p * PAGE_SIZE + i;
                if at < file_length {
                    page.push(file[at]);
                } else {
                    page.push(0u8);
                }
                i = i + 1;
                assert(page@ =~= file_page(file@, p as int).take(i as int));
            }
            assert(page@ =~= file_page(file@, p as int));
            pages.push(page);
            cached.push(false);
            p = p + 1;
        }
        let pager = Pager { file_length, num_pages, pages, cached };
        assert(pager@.pages.len() == TABLE_MAX_PAGES);
        Ok(pager)
    }

    /// The length of the file the store was opened on.
    pub fn len(&self) -> (r: usize)
        ensures
            r == self@.file_length,
    {
        self.file_length
    }

    /// Whether the file the store was opened on was empty.
    pub fn is_empty(&self) -> (r: bool)
        ensures
            r == (self@.file_length == 0),
    {
        self.file_length == 0
    }

    fn is_in_bounds(&self, page_num: usize) -> (r: bool)
        ensures
            r == (page_num < TABLE_MAX_PAGES),
    {
        page_num < TABLE_MAX_PAGES
    }

    fn is_cached(&self, page_num: usize) -> (r: bool)
        requires
            self.wf(),
            page_num < TABLE_MAX_PAGES,
        ensures
            r == self@.cached[page_num as int],
    {
        self.cached[page_num]
    }

    /// A copy of page `page_num` if it has been brought in, without bringing it in.
    pub fn get_page(&self, page_num: usize) -> (r: Result<Option<Vec<u8>>, PagerError>)
        requires
            self.wf(),
        ensures
            page_num >= TABLE_MAX_PAGES ==> (r matches Err(PagerError::OutOfBounds(p)) && p == page_num),
            page_num < TABLE_MAX_PAGES && !self@.cached[page_num as int] ==> r matches Ok(None),
            page_num < TABLE_MAX_PAGES && self@.cached[page_num as int] ==>
                (r matches Ok(Some(page)) && page@ == self@.pages[page_num as int]),
    {
        if !self.is_in_bounds(page_num) {
            return Err(PagerError::OutOfBounds(page_num));
        }
        if self.cached[page_num] {
            proof {
                assert(self.pages@[page_num as int]@ == self@.pages[page_num as int]);
            }
            Ok(Some(copy_out(&self.pages[page_num], 0, PAGE_SIZE)))
        } else {
            Ok(None)
        }
    }

    /// Brings page `page_num` in, counting it in `num_pages`, and gives a copy of it.
    pub fn get_page_mut(&mut self, page_num: usize) -> (r: Result<Vec<u8>, PagerError>)
        requires
            old(self).wf(),
        ensures
            final(self).wf(),
            page_num >= TABLE_MAX_PAGES ==> (r matches Err(PagerError::OutOfBounds(p)) && p == page_num
                && final(self)@ == old(self)@),
            page_num < TABLE_MAX_PAGES ==> (r matches Ok(page) && page@ == old(self)@.pages[page_num as int]
                && final(self)@ == fault_in(old(self)@, page_num as int)),
    {
        if !self.is_in_bounds(page_num) {
            return Err(PagerError::OutOfBounds(page_num));
        }
        if !self.cached[page_num] {
            self.cached.set(page_num, true);
            if page_num >= self.num_pages {
                self.num_pages = page_num + 1;
            }
        }
        proof {
            assert(self.pages@[page_num as int]@ == old(self)@.pages[page_num as int]);
            assert(self@.cached =~= fault_in(old(self)@, page_num as int).cached);
        }
        Ok(copy_out(&self.pages[page_num], 0, PAGE_SIZE))
    }

    /// Brings page `page_num` in and gives a copy of it as a node.
    pub fn get_node_mut(&mut self, page_num: usize) -> (r: Result<Node, PagerError>)
        requires
            old(self).wf(),
        ensures
            final(self).wf(),
            page_num >= TABLE_MAX_PAGES ==> (r matches Err(PagerError::OutOfBounds(p)) && p == page_num
                && final(self)@ == old(self)@),
            page_num < TABLE_MAX_PAGES ==> (r matches Ok(node) && node.wf() && node@ == old(self)@.pages[page_num as int]
                && final(self)@ == fault_in(old(self)@, page_num as int)),
    {
        match self.get_page_mut(page_num) {
            Ok(page) => Ok(Node::from_page(page)),
            Err(e) => Err(e),
        }
    }

    /// A copy of page `page_num` as a node if it has been brought in.
    pub fn get_node(&self, page_num: usize) -> (r: Result<Option<Node>, PagerError>)
        requires
            self.wf(),
        ensures
            page_num >= TABLE_MAX_PAGES ==> (r matches Err(PagerError::OutOfBounds(p)) && p == page_num),
            page_num < TABLE_MAX_PAGES && !self@.cached[page_num as int] ==> r matches Ok(None),
            page_num < TABLE_MAX_PAGES && self@.cached[page_num as int] ==>
                (r matches Ok(Some(node)) && node@ == self@.pages[page_num as int]),
    {
        match self.get_page(page_num) {
            Ok(Some(page)) => Ok(Some(Node::from_page(page))),
            Ok(None) => Ok(None),
            Err(e) => Err(e),
        }
    }

    /// Stores the bytes of `node` as page `page_num`.
    pub fn put_node(&mut self, page_num: usize, node: Node)
        requires
            old(self).wf(),
            node.wf(),
            page_num < TABLE_MAX_PAGES,
            old(self)@.cached[page_num as int],
        ensures
            final(self).wf(),
            final(self)@ == with_page(old(self)@, page_num as int, node@),
    {
        let page = node.into_page();
        self.pages.set(page_num, page);
        proof {
            assert(self@.pages =~= old(self)@.pages.update(page_num as int, node@));
        }
    }

    /// The bytes to write at `page_num * PAGE_SIZE` to save page `page_num`; a page that was
    /// never brought in is refused.
    fn pager_flush(&self, page_num: usize) -> (r: Result<Vec<u8>, PagerError>)
        requires
            self.wf(),
        ensures
            page_num >= TABLE_MAX_PAGES ==> (r matches Err(PagerError::OutOfBounds(p)) && p == page_num),
            page_num < TABLE_MAX_PAGES && !self@.cached[page_num as int] ==> r matches Err(PagerError::NullFlush),
            page_num < TABLE_MAX_PAGES && self@.cached[page_num as int] ==>
                (r matches Ok(page) && page@ == self@.pages[page_num as int]),
    {
        if page_num >= TABLE_MAX_PAGES {
            return Err(PagerError::OutOfBounds(page_num));
        }
        match self.get_page(page_num) {
            Ok(Some(page)) => Ok(page),
            _ => Err(PagerError::NullFlush),
        }
    }
}


// ---------------------------------------------------------------------------
// The shape the B-tree operations rely on.

/// A child pointer of internal page `p`: a page in use other than the root and `p` itself.
pub open spec fn child_ok(n: nat, p: int, c: u32) -> bool {
    0 < c < n && c != p
}

/// The leaf fields of page `p` are usable: at most `LEAF_NODE_MAX_CELLS` cells, at least one
/// outside the root page, and a next-leaf pointer that is 0 or names a leaf in use.
pub open spec fn leaf_ok(pages: Seq<Seq<u8>>, n: nat, p: int) -> bool {
    let pg = pages[p];
    &&& leaf_num_cells(pg) <= LEAF_NODE_MAX_CELLS
    &&& p != 0 ==> leaf_num_cells(pg) >= 1
    &&& next_leaf(pg) != 0 ==> next_leaf(pg) < n && is_leaf(pages[next_leaf(pg) as int])
}

/// The internal fields of page `p` are usable: one to `INTERNAL_NODE_MAX_CELLS` keys, and
/// every child pointer names a page in use other than the root and `p`.
pub open spec fn internal_ok(pages: Seq<Seq<u8>>, n: nat, p: int) -> bool {
    let pg = pages[p];
    &&& 1 <= num_keys(pg) <= INTERNAL_NODE_MAX_CELLS
    &&& forall|k: int| 0 <= k <= num_keys(pg) ==> child_ok(n, p, #[trigger] child_at(pg, k))
}

/// Page `p` is a usable node: its type and root flag decode, only the root page is flagged as
/// root, a page not flagged as root names an internal page in use as its parent, and its leaf
/// or internal fields are usable.
pub open spec fn node_ok(pages: Seq<Seq<u8>>, n: nat, p: int) -> bool {
    let pg = pages[p];
    &&& has_kind(pg)
    &&& has_root_flag(pg)
    &&& root_flag(pg) ==> p == 0
    &&& !root_flag(pg) ==> parent_of(pg) < n && is_internal(pages[parent_of(pg) as int])
    &&& is_leaf(pg) ==> leaf_ok(pages, n, p)
    &&& is_internal(pg) ==> internal_ok(pages, n, p)
}

/// The table's pages form a usable tree: every page in use is a usable node, the root page 0
/// is in use, points to itself as parent, and carries the root flag while it is a leaf.
pub open spec fn tree_usable(v: PagerView) -> bool {
    &&& storage_ok(v)
    &&& 1 <= v.num_pages <= TABLE_MAX_PAGES
    &&& parent_of(v.pages[0]) == 0
    &&& is_leaf(v.pages[0]) ==> root_flag(v.pages[0])
    &&& forall|p: int| 0 <= p < v.num_pages ==> #[trigger] node_ok(v.pages, v.num_pages, p)
}

/// Page `q` of `w` is a page of `v` left as it was.
pub open spec fn page_kept(v: PagerView, w: PagerView, q: int) -> bool {
    q < v.num_pages && w.pages[q] == v.pages[q]
}

/// The tree is usable when pages only are added or changed from `v`, no internal page stops
/// being internal, no leaf other than the root page stops being a leaf, every page kept from
/// `v` was a usable node there, and every added or changed page is a usable node.
pub proof fn lemma_tree_usable_frame(v: PagerView, w: PagerView, extra: int)
    requires
        storage_ok(w),
        v.num_pages <= w.num_pages <= TABLE_MAX_PAGES,
        1 <= w.num_pages,
        parent_of(w.pages[0]) == 0,
        is_leaf(w.pages[0]) ==> root_flag(w.pages[0]),
        forall|q: int| 0 <= q < v.num_pages && is_internal(v.pages[q]) ==> #[trigger] is_internal(w.pages[q]),
        forall|q: int| 0 < q < v.num_pages && is_leaf(v.pages[q]) ==> #[trigger] is_leaf(w.pages[q]),
        forall|q: int| 0 <= q < w.num_pages && page_kept(v, w, q) && q != extra ==> #[trigger] node_ok(v.pages, v.num_pages, q),
        forall|q: int| 0 <= q < w.num_pages && !page_kept(v, w, q) ==> #[trigger] node_ok(w.pages, w.num_pages, q),
        0 <= extra < w.num_pages ==> node_ok(w.pages, w.num_pages, extra),
    ensures
        tree_usable(w),
{
    assert forall|p: int| 0 <= p < w.num_pages implies #[trigger] node_ok(w.pages, w.num_pages, p) by {
        if page_kept(v, w, p) && p != extra {
            assert(node_ok(v.pages, v.num_pages, p));
            let pg = w.pages[p];
            if !root_flag(pg) {
                assert(is_internal(w.pages[parent_of(pg) as int]));
            }
            if is_leaf(pg) && next_leaf(pg) != 0 {
                assert(is_leaf(v.pages[next_leaf(pg) as int]));
                assert(is_leaf(w.pages[next_leaf(pg) as int]));
            }
            if is_internal(pg) {
                assert forall|k: int| 0 <= k <= num_keys(pg) implies child_ok(w.num_pages, p, #[trigger] child_at(pg, k)) by {
                    assert(child_ok(v.num_pages, p, child_at(v.pages[p], k)));
                }
            }
        }
    }
}

/// A usable tree stays usable under the conditions of `lemma_tree_usable_frame`.
pub proof fn lemma_tree_usable_frame_from(v: PagerView, w: PagerView)
    requires
        tree_usable(v),
        storage_ok(w),
        v.num_pages <= w.num_pages <= TABLE_MAX_PAGES,
        parent_of(w.pages[0]) == 0,
        is_leaf(w.pages[0]) ==> root_flag(w.pages[0]),
        forall|q: int| 0 <= q < v.num_pages && is_internal(v.pages[q]) ==> #[trigger] is_internal(w.pages[q]),
        forall|q: int| 0 < q < v.num_pages && is_leaf(v.pages[q]) ==> #[trigger] is_leaf(w.pages[q]),
        forall|q: int| 0 <= q < w.num_pages && !page_kept(v, w, q) ==> #[trigger] node_ok(w.pages, w.num_pages, q),
    ensures
        tree_usable(w),
{
    assert forall|q: int| 0 <= q < w.num_pages && page_kept(v, w, q) implies #[trigger] node_ok(v.pages, v.num_pages, q) by {
    }
    lemma_tree_usable_frame(v, w, -1);
}

/// The table: the page store and the root page number (always 0).
pub struct Table {
    pager: Pager,
    root_page_num: usize,
}

impl View for Table {
    type V = PagerView;

    closed spec fn view(&self) -> PagerView {
        self.pager@
    }
}

impl Table {
    pub closed spec fn spec_root(&self) -> nat {
        self.root_page_num as nat
    }

    pub open spec fn wf(&self) -> bool {
        storage_ok(self@) && self.spec_root() == 0
    }

    /// Opens the table on the bytes of a database file. An empty file gets a fresh root: page 0
    /// brought in and made an empty leaf flagged as root.
    pub fn db_open(file: &[u8]) -> (r: Result<Table, TableError>)
        ensures
            file@.len() % (PAGE_SIZE as nat) != 0 ==> r matches Err(TableError::PagerError(PagerError::PartialPageSize)),
            file@.len() % (PAGE_SIZE as nat) == 0 && file@.len() > 0 ==> (r matches Ok(t) && t.wf()
                && t@.file_length == file@.len()
                && t@.num_pages == file@.len() / (PAGE_SIZE as nat)
                && (forall|p: int| 0 <= p < TABLE_MAX_PAGES ==> #[trigger] t@.pages[p] == file_page(file@, p))
                && (forall|p: int| 0 <= p < TABLE_MAX_PAGES ==> !#[trigger] t@.cached[p])),
            file@.len() == 0 ==> (r matches Ok(t) && t.wf() && tree_usable(t@)
                && t@.file_length == 0
                && t@.num_pages == 1
                && t@.pages[0] == init_leaf(file_page(file@, 0)).update(1, 1u8)
                && leaf_num_cells(t@.pages[0]) == 0
                && (forall|p: int| 0 < p < TABLE_MAX_PAGES ==> #[trigger] t@.pages[p] == file_page(file@, p))
                && (forall|p: int| 0 <= p < TABLE_MAX_PAGES ==> #[trigger] t@.cached[p] == (p == 0))),
    {
        let mut pager = match Pager::pager_open(file) {
            Ok(p) => p,
            Err(e) => {
                return Err(TableError::PagerError(e));
            },
        };
        let root_page_num: usize = 0;
        if pager.is_empty() {
            let mut root_node = match pager.get_node_mut(root_page_num) {
                Ok(n) => n,
                Err(e) => {
                    return Err(TableError::PagerError(e));
                },
            };
            root_node.initialize_leaf_node();
            root_node.set_root_node(true);
            pager.put_node(root_page_num, root_node);
            proof {
                let pg = pager@.pages[0];
                crate::bytes::lemma_put_u32(file_page(file@, 0).update(0, 1u8).update(1, 0u8), 6, 0);
                crate::bytes::lemma_put_u32(put_u32(file_page(file@, 0).update(0, 1u8).update(1, 0u8), 6, 0), 10, 0);
                assert(pg[0] == 1);
                assert(pg[1] == 1);
                assert(parent_of(pg) == 0);
                assert(leaf_num_cells(pg) == 0);
                assert(next_leaf(pg) == 0);
                assert(node_ok(pager@.pages, pager@.num_pages, 0));
                assert(pager@.cached =~= Seq::new(TABLE_MAX_PAGES as nat, |p: int| p == 0));
            }
        }
        Ok(Table { pager, root_page_num })
    }

    /// Whether the pages form a usable tree (see `tree_usable`).
    pub fn is_well_formed(&self) -> (r: bool)
        requires
            self.wf(),
        ensures
            r == tree_usable(self@),
    {
        let n = self.pager.num_pages;
        if n < 1 || n > TABLE_MAX_PAGES {
            return false;
        }
        let root = &self.pager.pages[0];
        proof {
            assert(root@ == self@.pages[0]);
        }
        if crate::bytes::read_u32(root, PARENT_POINTER_OFFSET) != 0 {
            return false;
        }
        if root[0] == 1 && root[1] != 1 {
            return false;
        }
        let mut p: usize = 0;
        while p < n
            invariant
                self.wf(),
                n == self@.num_pages,
                1 <= n <= TABLE_MAX_PAGES,
                p <= n,
                forall|q: int| 0 <= q < p ==> #[trigger] node_ok(self@.pages, self@.num_pages, q),
            decreases n - p,
        {
            if !self.page_is_node_ok(p) {
                return false;
            }
            p = p + 1;
        }
        true
    }

    /// Whether page `p` is a usable node (see `node_ok`).
    fn page_is_node_ok(&self, p: usize) -> (r: bool)
        requires
            self.wf(),
            p < self@.num_pages <= TABLE_MAX_PAGES,
        ensures
            r == node_ok(self@.pages, self@.num_pages, p as int),
    {
        let n = self.pager.num_pages;
        let pg = &self.pager.pages[p];
        proof {
            assert(pg@ == self@.pages[p as int]);
        }
        let ty = pg[0];
        let rf = pg[1];
        if !(ty == 0 || ty == 1) || !(rf == 0 || rf == 1) {
            return false;
        }
        if rf == 1 && p != 0 {
            return false;
        }
        if rf == 0 {
            let parent = crate::bytes::read_u32(pg, PARENT_POINTER_OFFSET) as usize;
            if parent >= n {
                return false;
            }
            proof {
                assert(self.pager.pages@[parent as int]@ == self@.pages[parent as int]);
            }
            if self.pager.pages[parent][0] != 0 {
                return false;
            }
        }
        if ty == 1 {
            let cells = crate::bytes::read_u32(pg, LEAF_NODE_NUM_CELLS_OFFSET);
            if cells as usize > LEAF_NODE_MAX_CELLS {
                return false;
            }
            if p != 0 && cells < 1 {
                return false;
            }
            let next = crate::bytes::read_u32(pg, LEAF_NODE_NEXT_LEAF_OFFSET) as usize;
            if next != 0 {
                if next >= n {
                    return false;
                }
                proof {
                    assert(self.pager.pages@[next as int]@ == self@.pages[next as int]);
                }
                if self.pager.pages[next][0] != 1 {
                    return false;
                }
            }
            true
        } else {
            let nk = crate::bytes::read_u32(pg, INTERNAL_NODE_NUM_KEYS_OFFSET) as usize;
            if nk < 1 || nk > INTERNAL_NODE_MAX_CELLS {
                return false;
            }
            let mut k: usize = 0;
            while k <= nk
                invariant
                    self.wf(),
                    p < n,
                    pg@ == self@.pages[p as int],
                    pg@.len() == PAGE_SIZE,
                    is_internal(pg@),
                    n == self@.num_pages,
                    nk == num_keys(pg@),
                    1 <= nk <= INTERNAL_NODE_MAX_CELLS,
                    k <= nk + 1,
                    forall|j: int| 0 <= j < k ==> child_ok(self@.num_pages, p as int, #[trigger] child_at(pg@, j)),
                decreases nk + 1 - k,
            {
                let c = if k == nk {
                    crate::bytes::read_u32(pg, INTERNAL_NODE_RIGHT_CHILD_OFFSET)
                } else {
                    crate::bytes::read_u32(pg, INTERNAL_NODE_HEADER_SIZE + k * INTERNAL_NODE_CELL_SIZE)
                };
                if !(0 < c && (c as usize) < n && c as usize != p) {
                    proof {
                        assert(c == child_at(pg@, k as int));
                        assert(!child_ok(self@.num_pages, p as int, child_at(pg@, k as int)));
                        assert(!internal_ok(self@.pages, self@.num_pages, p as int));
                    }
                    return false;
                }
                k = k + 1;
            }
            true
        }
    }

    pub fn num_pages(&self) -> (r: usize)
        ensures
            r == self@.num_pages,
    {
        self.pager.num_pages
    }

    pub fn get_page(&self, page_num: usize) -> (r: Result<Option<Vec<u8>>, TableError>)
        requires
            self.wf(),
        ensures
            page_num >= TABLE_MAX_PAGES ==> (r matches Err(TableError::PagerError(PagerError::OutOfBounds(p))) && p == page_num),
            page_num < TABLE_MAX_PAGES && !self@.cached[page_num as int] ==> r matches Ok(None),
            page_num < TABLE_MAX_PAGES && self@.cached[page_num as int] ==>
                (r matches Ok(Some(page)) && page@ == self@.pages[page_num as int]),
    {
        match self.pager.get_page(page_num) {
            Ok(p) => Ok(p),
            Err(e) => Err(TableError::PagerError(e)),
        }
    }

    pub fn get_page_mut(&mut self, page_num: usize) -> (r: Result<Vec<u8>, TableError>)
        requires
            old(self).wf(),
        ensures
            final(self).wf(),
            page_num >= TABLE_MAX_PAGES ==> (r matches Err(TableError::PagerError(PagerError::OutOfBounds(p))) && p == page_num
                && final(self)@ == old(self)@),
            page_num < TABLE_MAX_PAGES ==> (r matches Ok(page) && page@ == old(self)@.pages[page_num as int]
                && final(self)@ == fault_in(old(self)@, page_num as int)),
    {
        match self.pager.get_page_mut(page_num) {
            Ok(p) => Ok(p),
            Err(e) => Err(TableError::PagerError(e)),
        }
    }

    pub fn get_node(&self, page_num: usize) -> (r: Result<Option<Node>, TableError>)
        requires
            self.wf(),
        ensures
            page_num >= TABLE_MAX_PAGES ==> (r matches Err(TableError::PagerError(PagerError::OutOfBounds(p))) && p == page_num),
            page_num < TABLE_MAX_PAGES && !self@.cached[page_num as int] ==> r matches Ok(None),
            page_num < TABLE_MAX_PAGES && self@.cached[page_num as int] ==>
                (r matches Ok(Some(node)) && node@ == self@.pages[page_num as int]),
    {
        match self.pager.get_node(page_num) {
            Ok(p) => Ok(p),
            Err(e) => Err(TableError::PagerError(e)),
        }
    }

    pub fn get_node_mut(&mut self, page_num: usize) -> (r: Result<Node, TableError>)
        requires
            old(self).wf(),
        ensures
            final(self).wf(),
            page_num >= TABLE_MAX_PAGES ==> (r matches Err(TableError::PagerError(PagerError::OutOfBounds(p))) && p == page_num
                && final(self)@ == old(self)@),
            page_num < TABLE_MAX_PAGES ==> (r matches Ok(node) && node.wf() && node@ == old(self)@.pages[page_num as int]
                && final(self)@ == fault_in(old(self)@, page_num as int)),
    {
        match self.pager.get_node_mut(page_num) {
            Ok(p) => Ok(p),
            Err(e) => Err(TableError::PagerError(e)),
        }
    }

    /// Stores the bytes of `node` as page `page_num`.
    pub fn put_node(&mut self, page_num: usize, node: Node)
        requires
            old(self).wf(),
            node.wf(),
            page_num < TABLE_MAX_PAGES,
            old(self)@.cached[page_num as int],
        ensures
            final(self).wf(),
            final(self)@ == with_page(old(self)@, page_num as int, node@),
    {
        self.pager.put_node(page_num, node);
    }

    pub fn root_page_num(&self) -> (r: usize)
        requires
            self.wf(),
        ensures
            r == 0,
    {
        self.root_page_num
    }

    /// Whether the table holds no row: the root is a leaf with no cell.
    pub fn is_empty(&mut self) -> (r: bool)
        requires
            old(self).wf(),
            has_kind(old(self)@.pages[0]),
        ensures
            final(self).wf(),
            final(self)@ == fault_in(old(self)@, 0),
            r == (is_leaf(old(self)@.pages[0]) && leaf_num_cells(old(self)@.pages[0]) == 0),
    {
        let node = match self.get_node_mut(self.root_page_num) {
            Ok(n) => n,
            Err(_) => {
                return false;
            },
        };
        match node.get_node_type() {
            NodeKind::Internal => false,
            NodeKind::Leaf => node.leaf_node_num_cells() == 0,
        }
    }

    /// Brings page `page_num` in and gives a copy of the value part of its leaf cell `cell_num`.
    pub fn get_leaf_value_mut(&mut self, page_num: usize, cell_num: usize) -> (r: Result<Vec<u8>, TableError>)
        requires
            old(self).wf(),
            leaf_cell_fits(cell_num as int),
        ensures
            final(self).wf(),
            page_num >= TABLE_MAX_PAGES ==> (r matches Err(TableError::PagerError(PagerError::OutOfBounds(p))) && p == page_num
                && final(self)@ == old(self)@),
            page_num < TABLE_MAX_PAGES ==> (r matches Ok(v) && v@ == leaf_value(old(self)@.pages[page_num as int], cell_num as int)
                && final(self)@ == fault_in(old(self)@, page_num as int)),
    {
        let page = match self.get_page_mut(page_num) {
            Ok(p) => p,
            Err(e) => {
                return Err(e);
            },
        };
        let base = LEAF_NODE_HEADER_SIZE + cell_num * LEAF_NODE_CELL_SIZE + LEAF_NODE_KEY_SIZE;
        Ok(copy_out(&page, base, LEAF_NODE_VALUE_SIZE))
    }

    /// The value part of leaf cell `cell_num` of page `page_num`, if that page has been brought in.
    pub fn get_leaf_value(&self, page_num: usize, cell_num: usize) -> (r: Result<Option<Vec<u8>>, TableError>)
        requires
            self.wf(),
            leaf_cell_fits(cell_num as int),
        ensures
            page_num >= TABLE_MAX_PAGES ==> (r matches Err(TableError::PagerError(PagerError::OutOfBounds(p))) && p == page_num),
            page_num < TABLE_MAX_PAGES && !self@.cached[page_num as int] ==> r matches Ok(None),
            page_num < TABLE_MAX_PAGES && self@.cached[page_num as int] ==>
                (r matches Ok(Some(v)) && v@ == leaf_value(self@.pages[page_num as int], cell_num as int)),
    {
        match self.get_page(page_num) {
            Ok(Some(page)) => {
                let base = LEAF_NODE_HEADER_SIZE + cell_num * LEAF_NODE_CELL_SIZE + LEAF_NODE_KEY_SIZE;
                Ok(Some(copy_out(&page, base, LEAF_NODE_VALUE_SIZE)))
            },
            Ok(None) => Ok(None),
            Err(e) => Err(e),
        }
    }

    /// The writes that save the table: for every page in use that has been brought in, in
    /// order, its page number and its bytes (to go at `page_num * PAGE_SIZE` in the file).
    pub fn flush_all(&self) -> (r: Result<Vec<(usize, Vec<u8>)>, TableError>)
        requires
            self.wf(),
            self@.num_pages <= TABLE_MAX_PAGES,
        ensures
            r matches Ok(writes) && writes@.len() == flushed_pages(self@).len()
                && forall|k: int| 0 <= k < writes@.len() ==> {
                    let (p, bytes) = #[trigger] writes@[k];
                    p == flushed_pages(self@)[k] && bytes@ == self@.pages[p as int]
                },
    {
        let n = self.pager.num_pages;
        let mut writes: Vec<(usize, Vec<u8>)> = Vec::new();
        let mut page_num: usize = 0;
        while page_num < n
            invariant
                self.wf(),
                n == self@.num_pages <= TABLE_MAX_PAGES,
                page_num <= n,
                writes@.len() == cached_below(self@, page_num as int).len(),
                forall|k: int| 0 <= k < writes@.len() ==> {
                    let (p, bytes) = #[trigger] writes@[k];
                    p == cached_below(self@, page_num as int)[k] && bytes@ == self@.pages[p as int]
                },
            decreases n - page_num,
        {
            if self.pager.is_cached(page_num) {
                let page = match self.pager.pager_flush(page_num) {
                    Ok(p) => p,
                    Err(e) => {
                        return Err(TableError::PagerError(e));
                    },
                };
                writes.push((page_num, page));
            }
            page_num = page_num + 1;
        }
        Ok(writes)
    }

    /// The next page number to allocate: the number of pages in use.
    pub fn get_unused_page_num(&self) -> (r: usize)
        ensures
            r == self@.num_pages,
    {
        self.pager.num_pages
    }
}

/// The page numbers below `limit` that have been brought in, in increasing order.
pub open spec fn cached_below(v: PagerView, limit: int) -> Seq<usize>
    decreases limit,
{
    if limit <= 0 {
        Seq::empty()
    } else if v.cached[limit - 1] {
        cached_below(v, limit - 1).push((limit - 1) as usize)
    } else {
        cached_below(v, limit - 1)
    }
}

/// The pages a flush writes: those in use that have been brought in, in increasing order.
pub open spec fn flushed_pages(v: PagerView) -> Seq<usize> {
    cached_below(v, v.num_pages as int)
}


// ---------------------------------------------------------------------------
// Leaf cells.

/// The bytes of a leaf cell holding `key` and the encoded row `value`.
pub open spec fn cell_bytes(key: u32, value: Seq<u8>) -> Seq<u8> {
    crate::bytes::be_bytes(key) + value
}

/// Page `b` is leaf page `a` with `new_cell` inserted at cell `cell`: one more cell, the cells
/// below `cell` kept, the new cell at `cell`, the cells from `cell` on moved one place up, and
/// every other byte but the cell count kept. A `cell` past the last cell is written where it
/// stands, the bytes between the last cell and it kept.
pub open spec fn leaf_inserted(a: Seq<u8>, b: Seq<u8>, cell: int, new_cell: Seq<u8>) -> bool {
    let n = leaf_num_cells(a) as int;
    &&& b.len() == a.len()
    &&& leaf_num_cells(b) == n + 1
    &&& leaf_cell(b, cell) == new_cell
    &&& forall|i: int| 0 <= i < cell ==> #[trigger] leaf_cell(b, i) == leaf_cell(a, i)
    &&& forall|i: int| cell < i <= n ==> #[trigger] leaf_cell(b, i) == leaf_cell(a, i - 1)
    &&& forall|j: int| 0 <= j < a.len() && !(LEAF_NODE_NUM_CELLS_OFFSET <= j < LEAF_NODE_NUM_CELLS_OFFSET + 4)
        && !(leaf_cell_offset(cell) <= j < leaf_cell_offset(if cell <= n { n + 1 } else { cell + 1 })) ==> #[trigger] b[j] == a[j]
}

/// Pages `a` and `b` differ at most in the parent pointer.
pub open spec fn same_but_parent(a: Seq<u8>, b: Seq<u8>) -> bool {
    &&& a.len() == b.len()
    &&& forall|j: int| 0 <= j < a.len() && !(PARENT_POINTER_OFFSET <= j < PARENT_POINTER_OFFSET + 4) ==> #[trigger] b[j] == a[j]
}

/// The fourteen cells that a full leaf and a new cell at `cell` make, in order.
pub open spec fn merged_cells(a: Seq<u8>, cell: int, new_cell: Seq<u8>) -> Seq<Seq<u8>> {
    Seq::new((LEAF_NODE_MAX_CELLS + 1) as nat, |i: int|
        if i < cell { leaf_cell(a, i) } else if i == cell { new_cell } else { leaf_cell(a, i - 1) })
}

/// Every leaf page of `v` other than those in `except` is still a leaf in `w`, and differs at
/// most in its parent pointer.
pub open spec fn leaves_kept(pages: Seq<Seq<u8>>, n: nat, w: PagerView, except: Set<int>) -> bool {
    forall|q: int| 0 <= q < n && is_leaf(pages[q]) && !except.contains(q) ==>
        #[trigger] same_but_parent(pages[q], w.pages[q]) && is_leaf(w.pages[q])
}

/// Internal page `q` of `w`, in use, has page `c` as its child `k`.
pub open spec fn is_child_at(w: PagerView, q: int, k: int, c: int) -> bool {
    &&& 0 <= q < w.num_pages
    &&& is_internal(w.pages[q])
    &&& 0 <= k <= num_keys(w.pages[q])
    &&& child_at(w.pages[q], k) as int == c
}

/// Page `c` is a child of some internal page in use of `w`.
pub open spec fn attached(w: PagerView, c: int) -> bool {
    exists|q: int, k: int| #[trigger] is_child_at(w, q, k, c)
}

/// Every child of an internal page in use of `pages` (with `n` pages in use) is still a child
/// of some internal page in use of `w`: no subtree is cut off.
pub open spec fn children_kept(pages: Seq<Seq<u8>>, n: nat, w: PagerView) -> bool {
    forall|q: int, k: int| 0 <= q < n && is_internal(pages[q]) && 0 <= k <= num_keys(pages[q])
        ==> attached(w, #[trigger] child_at(pages[q], k) as int)
}

/// Page `b` has the children of page `a` when `a` is an internal page with at most
/// `INTERNAL_NODE_MAX_CELLS` keys.
pub open spec fn children_same(a: Seq<u8>, b: Seq<u8>) -> bool {
    is_internal(a) && num_keys(a) <= INTERNAL_NODE_MAX_CELLS ==> {
        &&& is_internal(b)
        &&& num_keys(b) == num_keys(a)
        &&& forall|k: int| 0 <= k <= num_keys(a) ==> #[trigger] child_at(b, k) == child_at(a, k)
    }
}

/// A child attached in `s` is attached in `w` when `w` keeps the children of `s`.
proof fn lemma_attached_kept(s: PagerView, w: PagerView, c: int)
    requires
        attached(s, c),
        children_kept(s.pages, s.num_pages, w),
    ensures
        attached(w, c),
{
    let (q, k) = choose|q: int, k: int| #[trigger] is_child_at(s, q, k, c);
    assert(attached(w, child_at(s.pages[q], k) as int));
}

/// Children kept twice over are kept.
proof fn lemma_children_kept_trans(pages: Seq<Seq<u8>>, n: nat, s: PagerView, w: PagerView)
    requires
        children_kept(pages, n, s),
        children_kept(s.pages, s.num_pages, w),
    ensures
        children_kept(pages, n, w),
{
    assert forall|q: int, k: int| 0 <= q < n && is_internal(pages[q]) && 0 <= k <= num_keys(pages[q])
        implies attached(w, #[trigger] child_at(pages[q], k) as int) by {
        lemma_attached_kept(s, w, child_at(pages[q], k) as int);
    }
}

/// Pages in use that keep their children keep every child attached.
proof fn lemma_children_kept_same(pages: Seq<Seq<u8>>, n: nat, w: PagerView)
    requires
        n <= w.num_pages,
        forall|q: int| 0 <= q < n && is_internal(pages[q]) ==> num_keys(pages[q]) <= INTERNAL_NODE_MAX_CELLS,
        forall|q: int| 0 <= q < n ==> #[trigger] children_same(pages[q], w.pages[q]),
    ensures
        children_kept(pages, n, w),
{
    assert forall|q: int, k: int| 0 <= q < n && is_internal(pages[q]) && 0 <= k <= num_keys(pages[q])
        implies attached(w, #[trigger] child_at(pages[q], k) as int) by {
        assert(children_same(pages[q], w.pages[q]));
        assert(is_child_at(w, q, k, child_at(pages[q], k) as int));
    }
}

/// Writing at or after byte 14, or in the parent pointer, keeps the kind; writing outside the
/// key count, the right child and the cell children keeps the children.
proof fn lemma_children_same_write(a: Seq<u8>, b: Seq<u8>)
    requires
        a.len() == PAGE_SIZE,
        b.len() == PAGE_SIZE,
        b[0] == a[0],
        forall|j: int| 6 <= j < 14 ==> #[trigger] b[j] == a[j],
        forall|k: int| 0 <= k < INTERNAL_NODE_MAX_CELLS ==> #[trigger] cell_child(b, k) == cell_child(a, k),
    ensures
        children_same(a, b),
{
    assert(b[6] == a[6] && b[7] == a[7] && b[8] == a[8] && b[9] == a[9]);
    assert(b[10] == a[10] && b[11] == a[11] && b[12] == a[12] && b[13] == a[13]);
    if is_internal(a) && num_keys(a) <= INTERNAL_NODE_MAX_CELLS {
        assert forall|k: int| 0 <= k <= num_keys(a) implies #[trigger] child_at(b, k) == child_at(a, k) by {
            if k < num_keys(a) {
                assert(cell_child(b, k) == cell_child(a, k));
            }
        }
    }
}

/// Changing the parent pointer keeps the children.
proof fn lemma_children_same_parent(a: Seq<u8>, x: u32)
    requires
        a.len() == PAGE_SIZE,
    ensures
        children_same(a, put_u32(a, PARENT_POINTER_OFFSET as int, x)),
{
    let b = put_u32(a, PARENT_POINTER_OFFSET as int, x);
    crate::bytes::lemma_put_u32(a, PARENT_POINTER_OFFSET as int, x);
    assert forall|k: int| 0 <= k < INTERNAL_NODE_MAX_CELLS implies #[trigger] cell_child(b, k) == cell_child(a, k) by {
        let o = internal_cell_offset(k);
        assert(b[o] == a[o] && b[o + 1] == a[o + 1] && b[o + 2] == a[o + 2] && b[o + 3] == a[o + 3]);
    }
    lemma_children_same_write(a, b);
}

/// Changing a key keeps the children.
proof fn lemma_children_same_key(a: Seq<u8>, idx: int, key: u32)
    requires
        a.len() == PAGE_SIZE,
        0 <= idx <= INTERNAL_NODE_MAX_CELLS,
    ensures
        children_same(a, put_u32(a, internal_cell_offset(idx) + INTERNAL_NODE_CHILD_SIZE, key)),
{
    let b = put_u32(a, internal_cell_offset(idx) + INTERNAL_NODE_CHILD_SIZE, key);
    crate::bytes::lemma_put_u32(a, internal_cell_offset(idx) + INTERNAL_NODE_CHILD_SIZE, key);
    assert forall|k: int| 0 <= k < INTERNAL_NODE_MAX_CELLS implies #[trigger] cell_child(b, k) == cell_child(a, k) by {
        let o = internal_cell_offset(k);
        assert(b[o] == a[o] && b[o + 1] == a[o + 1] && b[o + 2] == a[o + 2] && b[o + 3] == a[o + 3]);
    }
    lemma_children_same_write(a, b);
}

/// Children the same twice over are the same.
proof fn lemma_children_same_trans(a: Seq<u8>, b: Seq<u8>, c: Seq<u8>)
    requires
        children_same(a, b),
        children_same(b, c),
    ensures
        children_same(a, c),
{
    if is_internal(a) && num_keys(a) <= INTERNAL_NODE_MAX_CELLS {
        assert forall|k: int| 0 <= k <= num_keys(a) implies #[trigger] child_at(c, k) == child_at(a, k) by {
            assert(child_at(b, k) == child_at(a, k));
            assert(child_at(c, k) == child_at(b, k));
        }
    }
}

/// What inserting the cell `key`, `value` at cell `cell` of leaf page `page` of `v` leads to in
/// `w`, for the outcome `r`. A key equal to the one at `cell` is refused as a duplicate,
/// however full the leaf, with the pages left as they were. Otherwise, in a leaf with room,
/// the tree stays usable and the leaf gains the cell at `cell`, the cells from there on moving
/// one place up, every other page kept; a full leaf is split (see `split_outcome`).
pub open spec fn leaf_insert_outcome(v: PagerView, w: PagerView, page: int, cell: int, key: u32, value: Seq<u8>, r: Result<(), TableError>) -> bool {
    let a = v.pages[page];
    let n = leaf_num_cells(a) as int;
    let nc = cell_bytes(key, value);
    &&& cell < n && leaf_key(a, cell) == key ==> {
        &&& r matches Err(TableError::DuplicateKey(k)) && k == key
        &&& w == fault_in(v, page)
    }
    &&& n < LEAF_NODE_MAX_CELLS && !(cell < n && leaf_key(a, cell) == key) ==> {
        &&& r is Ok
        &&& tree_usable(w)
        &&& w.num_pages == v.num_pages
        &&& w.file_length == v.file_length
        &&& w.cached == v.cached.update(page, true)
        &&& leaf_inserted(a, w.pages[page], cell, nc)
        &&& forall|q: int| 0 <= q < TABLE_MAX_PAGES && q != page ==> #[trigger] w.pages[q] == v.pages[q]
    }
    &&& n >= LEAF_NODE_MAX_CELLS && !(cell < n && leaf_key(a, cell) == key) ==> split_outcome(v.pages, v.num_pages, w, page, cell, nc, r)
}

impl Table {
    /// Inserts the cell `key`, `row` at cell `cell_num` of leaf page `page_num`. A key equal to
    /// the one at `cell_num` is refused as a duplicate; otherwise a full leaf is split, and in a
    /// leaf with room the cells from `cell_num` on move one place up to make room.
    pub fn leaf_node_insert(&mut self, page_num: usize, cell_num: usize, key: u32, row: &Row) -> (r: Result<(), TableError>)
        requires
            old(self).wf(),
            tree_usable(old(self)@),
            page_num < old(self)@.num_pages,
            is_leaf(old(self)@.pages[page_num as int]),
            cell_num <= leaf_num_cells(old(self)@.pages[page_num as int]) || cell_num < LEAF_NODE_MAX_CELLS,
            row.wf(),
        ensures
            final(self).wf(),
            leaf_insert_outcome(old(self)@, final(self)@, page_num as int, cell_num as int, key, row.spec_bytes(), r),
    {
        let ghost v0 = self@;
        let node0 = match self.get_node_mut(page_num) {
            Ok(n) => n,
            Err(e) => {
                return Err(e);
            },
        };
        let num_cells = node0.leaf_node_num_cells() as usize;
        proof {
            assert(node_ok(v0.pages, v0.num_pages, page_num as int));
        }
        if cell_num < num_cells {
            let key_at_index = node0.get_leaf_node_key(cell_num);
            if key_at_index == key {
                return Err(TableError::DuplicateKey(key));
            }
        }
        if num_cells >= LEAF_NODE_MAX_CELLS {
            proof {
                lemma_fault_in_tree_usable(v0, page_num as int);
                assert(node_ok(v0.pages, v0.num_pages, page_num as int));
            }
            let r = self.leaf_node_split_and_insert(page_num, cell_num, key, row);
            proof {
                assert(fault_in(v0, page_num as int).pages == v0.pages);
            }
            return r;
        }
        let mut node = node0;
        let ghost a = node@;
        if cell_num < num_cells {
            // make room for a new cell
            let mut i: usize = num_cells;
            while i > cell_num
                invariant
                    node.wf(),
                    is_leaf(node@),
                    cell_num <= i <= num_cells < LEAF_NODE_MAX_CELLS,
                    num_cells == leaf_num_cells(a),
                    node@.len() == a.len(),
                    forall|j: int| 0 <= j < a.len() ==> #[trigger] node@[j] == (
                        if leaf_cell_offset(i as int + 1) <= j < leaf_cell_offset(num_cells as int + 1) {
                            a[j - LEAF_NODE_CELL_SIZE]
                        } else {
                            a[j]
                        }),
                decreases i,
            {
                node.copy_leaf_cell(i - 1, i);
                i = i - 1;
            }
        }
        let ghost shifted = node@;
        let c = node.leaf_node_num_cells();
        node.set_leaf_node_num_cells(c + 1);
        node.set_leaf_node_key(cell_num, key);
        let value = row.serialize_row();
        node.set_leaf_node_value(cell_num, value.as_slice());
        let ghost b = node@;
        proof {
            lemma_leaf_insert_bytes(a, shifted, b, cell_num as int, key, row.spec_bytes());
        }
        self.put_node(page_num, node);
        proof {
            let v1 = fault_in(v0, page_num as int);
            let w = self@;
            assert(w.pages =~= v0.pages.update(page_num as int, b));
            lemma_leaf_inserted_node_ok(v0, w, page_num as int, cell_num as int, cell_bytes(key, row.spec_bytes()));
            lemma_tree_usable_frame_from(v0, w);
        }
        Ok(())
    }
}

/// Bringing a page in keeps the tree usable.
pub proof fn lemma_fault_in_tree_usable(v: PagerView, p: int)
    requires
        tree_usable(v),
        0 <= p < v.num_pages,
    ensures
        tree_usable(fault_in(v, p)),
{
    let w = fault_in(v, p);
    assert forall|q: int| 0 <= q < TABLE_MAX_PAGES && #[trigger] w.cached[q] implies q < w.num_pages by {
        if q != p {
            assert(v.cached[q]);
        }
    }
    assert forall|q: int| 0 <= q < w.num_pages implies #[trigger] node_ok(w.pages, w.num_pages, q) by {
        assert(node_ok(v.pages, v.num_pages, q));
    }
}

/// The byte-level effect of shifting the cells and writing the new one.
proof fn lemma_leaf_insert_bytes(a: Seq<u8>, shifted: Seq<u8>, b: Seq<u8>, cell: int, key: u32, value: Seq<u8>)
    requires
        a.len() == PAGE_SIZE,
        is_leaf(a),
        0 <= cell < LEAF_NODE_MAX_CELLS,
        leaf_num_cells(a) < LEAF_NODE_MAX_CELLS,
        value.len() == LEAF_NODE_VALUE_SIZE,
        shifted.len() == a.len(),
        forall|j: int| 0 <= j < a.len() ==> #[trigger] shifted[j] == (
            if leaf_cell_offset(cell + 1) <= j < leaf_cell_offset(leaf_num_cells(a) + 1) {
                a[j - LEAF_NODE_CELL_SIZE]
            } else {
                a[j]
            }),
        b == put_bytes(put_u32(put_u32(shifted, LEAF_NODE_NUM_CELLS_OFFSET as int, (leaf_num_cells(a) + 1) as u32),
            leaf_cell_offset(cell), key), leaf_cell_offset(cell) + LEAF_NODE_KEY_SIZE, value),
    ensures
        leaf_inserted(a, b, cell, cell_bytes(key, value)),
{
    let n = leaf_num_cells(a) as int;
    let s1 = put_u32(shifted, LEAF_NODE_NUM_CELLS_OFFSET as int, (n + 1) as u32);
    crate::bytes::lemma_put_u32(shifted, LEAF_NODE_NUM_CELLS_OFFSET as int, (n + 1) as u32);
    let s2 = put_u32(s1, leaf_cell_offset(cell), key);
    crate::bytes::lemma_put_u32(s1, leaf_cell_offset(cell), key);
    assert(leaf_num_cells(s1) == n + 1);
    assert(leaf_num_cells(b) == leaf_num_cells(s2));
    assert(leaf_num_cells(s2) == leaf_num_cells(s1));
    assert(leaf_cell(b, cell) =~= cell_bytes(key, value));
    assert forall|i: int| 0 <= i < cell implies #[trigger] leaf_cell(b, i) == leaf_cell(a, i) by {
        assert(leaf_cell(b, i) =~= leaf_cell(a, i));
    }
    assert forall|i: int| cell < i <= n implies #[trigger] leaf_cell(b, i) == leaf_cell(a, i - 1) by {
        assert(leaf_cell(b, i) =~= leaf_cell(a, i - 1));
    }
}

/// A leaf changed by an insertion, in a usable tree, is still a usable node.
proof fn lemma_leaf_inserted_node_ok(v: PagerView, w: PagerView, p: int, cell: int, nc: Seq<u8>)
    requires
        tree_usable(v),
        0 <= p < v.num_pages,
        is_leaf(v.pages[p]),
        leaf_num_cells(v.pages[p]) < LEAF_NODE_MAX_CELLS,
        0 <= cell < LEAF_NODE_MAX_CELLS,
        leaf_inserted(v.pages[p], w.pages[p], cell, nc),
        w.pages == v.pages.update(p, w.pages[p]),
        w.num_pages == v.num_pages,
        storage_ok(w),
    ensures
        node_ok(w.pages, w.num_pages, p),
        parent_of(w.pages[0]) == 0,
        is_leaf(w.pages[0]) ==> root_flag(w.pages[0]),
        forall|q: int| 0 <= q < v.num_pages && is_internal(v.pages[q]) ==> #[trigger] is_internal(w.pages[q]),
        forall|q: int| 0 < q < v.num_pages && is_leaf(v.pages[q]) ==> #[trigger] is_leaf(w.pages[q]),
{
    let a = v.pages[p];
    let b = w.pages[p];
    assert(node_ok(v.pages, v.num_pages, p));
    assert(b[0] == a[0]);
    assert(b[1] == a[1]);
    assert(parent_of(b) == parent_of(a));
    assert(next_leaf(b) == next_leaf(a));
}


// ---------------------------------------------------------------------------
// Splits.

/// What splitting full leaf `page` of `v` to insert `nc` at `cell` leads to in `w`, for the
/// outcome `r`. On success the tree is usable; the fourteen cells are divided in order
/// between a left leaf (the split leaf itself, or a new page when the split leaf was the
/// root, whose content then moves down) and a right leaf on the first page that was free;
/// the left leaf links to the right one and the right one to the split leaf's old next leaf;
/// every other leaf differs at most in its parent pointer; no child is cut off. A split root
/// becomes an internal root over the two leaves, keyed by the left leaf's largest key; a split
/// leaf below the root reaches the state `leaf_split_mid` (its parent's key for it updated)
/// and the right leaf is then added to its parent (see `internal_insert_outcome`). A failure
/// is the page store running out of pages: it leaves every page in use, and comes only when
/// the new pages the split may take (`pages_to_split_leaf`) were not free.
pub open spec fn split_outcome(pages: Seq<Seq<u8>>, n: nat, w: PagerView, page: int, cell: int, nc: Seq<u8>, r: Result<(), TableError>) -> bool {
    let a = pages[page];
    let m = merged_cells(a, cell, nc);
    let right = n as int;
    let left = split_left(a, n, page);
    match r {
        Ok(_) => {
            &&& tree_usable(w)
            &&& w.num_pages > n && w.num_pages > left
            &&& is_leaf(w.pages[left]) && is_leaf(w.pages[right])
            &&& leaf_num_cells(w.pages[left]) == LEAF_NODE_LEFT_SPLIT_COUNT
            &&& leaf_num_cells(w.pages[right]) == LEAF_NODE_RIGHT_SPLIT_COUNT
            &&& forall|i: int| 0 <= i < LEAF_NODE_LEFT_SPLIT_COUNT ==> #[trigger] leaf_cell(w.pages[left], i) == m[i]
            &&& forall|i: int| 0 <= i < LEAF_NODE_RIGHT_SPLIT_COUNT ==> #[trigger] leaf_cell(w.pages[right], i) == m[i + LEAF_NODE_LEFT_SPLIT_COUNT]
            &&& next_leaf(w.pages[left]) == right
            &&& next_leaf(w.pages[right]) == next_leaf(a)
            &&& leaves_kept(pages, n, w, set![page])
            &&& children_kept(pages, n, w)
            &&& attached(w, right)
            &&& root_flag(a) ==> attached(w, left)
            &&& root_flag(a) ==> {
                &&& w.num_pages == n + 2
                &&& is_internal(w.pages[0]) && root_flag(w.pages[0]) && num_keys(w.pages[0]) == 1
                &&& child_at(w.pages[0], 0) == left && right_child(w.pages[0]) == right
                &&& internal_key(w.pages[0], 0) == leaf_key(w.pages[left], LEAF_NODE_LEFT_SPLIT_COUNT - 1)
                &&& parent_of(w.pages[left]) == 0 && parent_of(w.pages[right]) == 0
                &&& !root_flag(w.pages[left]) && !root_flag(w.pages[right])
            }
            &&& !root_flag(a) ==> exists|s: PagerView| #[trigger] leaf_split_mid(pages, n, s, page, cell, nc)
                && internal_insert_outcome(s, w, parent_of(a) as int, n as int, r)
        },
        Err(e) => e == TableError::PagerError(PagerError::OutOfBounds(TABLE_MAX_PAGES)) && w.num_pages == TABLE_MAX_PAGES
            && n + pages_to_split_leaf(pages, n, page) > TABLE_MAX_PAGES,
    }
}

/// How many new pages adding a child to internal page `p` of `pages` (with `n` pages in use)
/// may take: none when `p` has room; two when `p` is a full root; otherwise one more than
/// adding a child to its parent takes. When the chain of full pages leaves the pages in use,
/// or is longer than `fuel`, it counts as `TABLE_MAX_PAGES`, as many as can ever be had; the
/// count never goes above that.
#[verifier::opaque]
pub open spec fn pages_to_add(pages: Seq<Seq<u8>>, n: nat, p: int, fuel: nat) -> nat
    decreases fuel,
{
    if fuel == 0 || p < 0 || p >= n {
        TABLE_MAX_PAGES as nat
    } else if num_keys(pages[p]) < INTERNAL_NODE_MAX_CELLS {
        0
    } else if root_flag(pages[p]) {
        2
    } else {
        let c = 1 + pages_to_add(pages, n, parent_of(pages[p]) as int, (fuel - 1) as nat);
        if c > TABLE_MAX_PAGES { TABLE_MAX_PAGES as nat } else { c as nat }
    }
}

/// How many new pages splitting full leaf `page` of `pages` (with `n` pages in use) may take:
/// two for the root; otherwise the new leaf and what adding it to the parent takes.
#[verifier::opaque]
pub open spec fn pages_to_split_leaf(pages: Seq<Seq<u8>>, n: nat, page: int) -> nat {
    let a = pages[page];
    if root_flag(a) {
        2
    } else {
        let c = 1 + pages_to_add(pages, n, parent_of(a) as int, TABLE_MAX_PAGES as nat);
        if c > TABLE_MAX_PAGES { TABLE_MAX_PAGES as nat } else { c as nat }
    }
}

/// Page `x` of `s` asks for no more new pages than page `x` of `v`: it has room, or it is as
/// full as in `v`, with the same root flag, and its parent is the same or has room in `s`.
spec fn page_cost_kept(s: Seq<Seq<u8>>, sn: nat, v: Seq<Seq<u8>>, x: int) -> bool {
    ||| num_keys(s[x]) < INTERNAL_NODE_MAX_CELLS
    ||| {
        &&& num_keys(v[x]) >= INTERNAL_NODE_MAX_CELLS
        &&& root_flag(s[x]) == root_flag(v[x])
        &&& (parent_of(s[x]) == parent_of(v[x]) || (parent_of(s[x]) < sn
            && num_keys(s[parent_of(s[x]) as int]) < INTERNAL_NODE_MAX_CELLS))
    }
}

/// More fuel never asks for more pages.
proof fn lemma_pages_to_add_fuel(pages: Seq<Seq<u8>>, n: nat, p: int, f: nat)
    ensures
        pages_to_add(pages, n, p, f + 1) <= pages_to_add(pages, n, p, f),
    decreases f,
{
    reveal_with_fuel(pages_to_add, 2);
    if f > 0 && 0 <= p < n && num_keys(pages[p]) >= INTERNAL_NODE_MAX_CELLS && !root_flag(pages[p]) {
        lemma_pages_to_add_fuel(pages, n, parent_of(pages[p]) as int, (f - 1) as nat);
    }
}

/// Pages that each ask for no more than before ask for no more along a chain either.
proof fn lemma_pages_to_add_le(s: Seq<Seq<u8>>, sn: nat, v: Seq<Seq<u8>>, vn: nat, p: int, f: nat)
    requires
        vn <= sn,
        forall|x: int| 0 <= x < vn ==> #[trigger] page_cost_kept(s, sn, v, x),
    ensures
        pages_to_add(s, sn, p, f) <= pages_to_add(v, vn, p, f),
    decreases f,
{
    reveal_with_fuel(pages_to_add, 2);
    if f > 0 && 0 <= p < vn {
        assert(page_cost_kept(s, sn, v, p));
        if num_keys(s[p]) >= INTERNAL_NODE_MAX_CELLS && !root_flag(s[p]) {
            assert(num_keys(v[p]) >= INTERNAL_NODE_MAX_CELLS && !root_flag(v[p]));
            if parent_of(s[p]) == parent_of(v[p]) {
                lemma_pages_to_add_le(s, sn, v, vn, parent_of(s[p]) as int, (f - 1) as nat);
            } else {
                let ps = parent_of(s[p]) as int;
                assert(pages_to_add(s, sn, ps, (f - 1) as nat) == 0 || f - 1 == 0);
            }
        }
    }
}

/// A page that differs at most in its parent pointer keeps its key count and root flag.
proof fn lemma_same_but_parent_fields(a: Seq<u8>, b: Seq<u8>)
    requires
        a.len() == PAGE_SIZE,
        same_but_parent(a, b),
    ensures
        num_keys(b) == num_keys(a),
        root_flag(b) == root_flag(a),
{
    assert(b[1] == a[1]);
    assert(b[6] == a[6] && b[7] == a[7] && b[8] == a[8] && b[9] == a[9]);
}

/// Writing a key keeps the key count, the root flag and the parent pointer.
proof fn lemma_key_write_fields(a: Seq<u8>, idx: int, key: u32)
    requires
        a.len() == PAGE_SIZE,
        0 <= idx <= INTERNAL_NODE_MAX_CELLS,
    ensures
        num_keys(put_u32(a, internal_cell_offset(idx) + INTERNAL_NODE_CHILD_SIZE, key)) == num_keys(a),
        root_flag(put_u32(a, internal_cell_offset(idx) + INTERNAL_NODE_CHILD_SIZE, key)) == root_flag(a),
        parent_of(put_u32(a, internal_cell_offset(idx) + INTERNAL_NODE_CHILD_SIZE, key)) == parent_of(a),
{
    let b = put_u32(a, internal_cell_offset(idx) + INTERNAL_NODE_CHILD_SIZE, key);
    crate::bytes::lemma_put_u32(a, internal_cell_offset(idx) + INTERNAL_NODE_CHILD_SIZE, key);
    assert(b[1] == a[1]);
    assert(b[2] == a[2] && b[3] == a[3] && b[4] == a[4] && b[5] == a[5]);
    assert(b[6] == a[6] && b[7] == a[7] && b[8] == a[8] && b[9] == a[9]);
}

/// A full page asks for at least one new page, and a full root for two.
proof fn lemma_pages_to_add_full(pages: Seq<Seq<u8>>, n: nat, p: int)
    requires
        0 <= p < n,
        num_keys(pages[p]) >= INTERNAL_NODE_MAX_CELLS,
    ensures
        pages_to_add(pages, n, p, TABLE_MAX_PAGES as nat) >= 1,
        root_flag(pages[p]) ==> pages_to_add(pages, n, p, TABLE_MAX_PAGES as nat) == 2,
{
    reveal(pages_to_add);
}

/// Splitting a full leaf asks for at least one new page, and splitting the root leaf for two.
proof fn lemma_pages_to_split_leaf(pages: Seq<Seq<u8>>, n: nat, page: int)
    ensures
        pages_to_split_leaf(pages, n, page) >= 1,
        root_flag(pages[page]) ==> pages_to_split_leaf(pages, n, page) == 2,
{
    reveal(pages_to_split_leaf);
}

/// When adding a child to the grandparent `g` of a split full page `p` fails in `s`, where
/// one new page has been taken and every page asks for no more than before, the pages needed
/// for the split of `p` were not free.
proof fn lemma_split_cost_step(v: Seq<Seq<u8>>, vn: nat, p: int, s: Seq<Seq<u8>>, sn: nat)
    requires
        0 <= p < vn,
        sn == vn + 1,
        num_keys(v[p]) >= INTERNAL_NODE_MAX_CELLS,
        !root_flag(v[p]),
        forall|x: int| 0 <= x < vn ==> #[trigger] page_cost_kept(s, sn, v, x),
        sn + pages_to_add(s, sn, parent_of(v[p]) as int, TABLE_MAX_PAGES as nat) > TABLE_MAX_PAGES,
    ensures
        vn + pages_to_add(v, vn, p, TABLE_MAX_PAGES as nat) > TABLE_MAX_PAGES,
{
    let g = parent_of(v[p]) as int;
    let f = (TABLE_MAX_PAGES - 1) as nat;
    lemma_pages_to_add_le(s, sn, v, vn, g, TABLE_MAX_PAGES as nat);
    lemma_pages_to_add_fuel(v, vn, g, f);
    reveal(pages_to_add);
}

/// When adding the new leaf to the parent `g` of a split full leaf `page` fails in `s`, where
/// the new leaf has been taken and every page asks for no more than before, the pages needed
/// for the split were not free.
proof fn lemma_leaf_split_cost_step(v: Seq<Seq<u8>>, vn: nat, page: int, s: Seq<Seq<u8>>, sn: nat)
    requires
        1 <= vn,
        sn == vn + 1,
        !root_flag(v[page]),
        forall|x: int| 0 <= x < vn ==> #[trigger] page_cost_kept(s, sn, v, x),
        sn + pages_to_add(s, sn, parent_of(v[page]) as int, TABLE_MAX_PAGES as nat) > TABLE_MAX_PAGES,
    ensures
        vn + pages_to_split_leaf(v, vn, page) > TABLE_MAX_PAGES,
{
    lemma_pages_to_add_le(s, sn, v, vn, parent_of(v[page]) as int, TABLE_MAX_PAGES as nat);
    reveal(pages_to_split_leaf);
}

/// Internal page `p` of `v` is empty, with no key and no right child, as a page just
/// initialized as an internal node is, and page `c` is a node whose largest key can be read.
pub open spec fn empty_parent(v: PagerView, p: int, c: int) -> bool {
    let pc = v.pages[c];
    &&& v.num_pages <= TABLE_MAX_PAGES
    &&& 0 <= p < v.num_pages
    &&& is_internal(v.pages[p])
    &&& num_keys(v.pages[p]) == 0
    &&& right_child(v.pages[p]) == INVALID_PAGE_NUM
    &&& 0 < c < v.num_pages
    &&& has_kind(pc)
    &&& is_internal(pc) ==> 1 <= num_keys(pc) <= INTERNAL_NODE_MAX_CELLS
    &&& is_leaf(pc) ==> 1 <= leaf_num_cells(pc) <= LEAF_NODE_MAX_CELLS
}

/// What splitting full internal page `pp` of `v` to add child page `c` leads to in `w`, for
/// the outcome `r`: the outcome of an insertion, with no child cut off and `c` attached; a
/// failure only when the new pages the split may take (`pages_to_add`) are not free. The four
/// children of `pp` and `c`, with their largest keys, are listed in order, `c` before the first
/// whose key is at or above its own (`split_entries`). A split root ends as an internal root
/// with one key over two new pages, the first two entries on the second new page and the last
/// three on the first, each child pointing at its page. A split page below the root reaches
/// the state `internal_split_mid`, from which the new page is added to the grandparent
/// (`internal_insert_outcome`).
pub open spec fn internal_split_outcome(v: PagerView, w: PagerView, pp: int, c: int, r: Result<(), TableError>) -> bool
    decreases TABLE_MAX_PAGES - v.num_pages, 0nat,
{
    let a = v.pages[pp];
    let rk = max_key(v.pages[right_child(a) as int]);
    let ck = max_key(v.pages[c]);
    let e = split_entries(a, rk, c as u32, ck);
    let n0 = v.num_pages as int;
    &&& insert_outcome(v, w, r)
    &&& r is Err ==> v.num_pages + pages_to_add(v.pages, v.num_pages, pp, TABLE_MAX_PAGES as nat) > TABLE_MAX_PAGES
    &&& r is Ok ==> children_kept(v.pages, v.num_pages, w) && attached(w, c)
    &&& root_flag(a) && r is Ok ==> {
        &&& w.num_pages == v.num_pages + 2
        &&& is_internal(w.pages[0]) && root_flag(w.pages[0]) && num_keys(w.pages[0]) == 1
        &&& cell_child(w.pages[0], 0) == n0 + 1 && internal_key(w.pages[0], 0) == e[1].1
        &&& right_child(w.pages[0]) == n0
        &&& holds_entries(w.pages[n0 + 1], e.subrange(0, 2))
        &&& holds_entries(w.pages[n0], e.subrange(2, 5))
        &&& parent_of(w.pages[n0]) == 0 && parent_of(w.pages[n0 + 1]) == 0
        &&& children_point_at(w, e, n0 + 1, n0)
    }
    &&& !root_flag(a) && r is Ok ==> exists|s: PagerView|
        s.num_pages == v.num_pages + 1 && s.num_pages <= TABLE_MAX_PAGES
        && #[trigger] internal_split_mid(v, s, pp, c as u32, rk, ck)
        && internal_insert_outcome(s, w, parent_of(a) as int, n0, r)
}

/// What adding child page `c` to internal page `p` of `v` leads to in `w`, for the outcome
/// `r`: the outcome of an insertion, with no child cut off and `c` attached; a failure only
/// when the new pages that the insertion may take (`pages_to_add`) are not free; a full `p` is
/// split (`internal_split_outcome`); and when `p` has
/// room, only `p` changes: `c` goes in at the place its largest key has among the keys of `p`,
/// or becomes the right child, the old one moving into a cell, when its largest key is above
/// that of the old right child.
pub open spec fn internal_insert_outcome(v: PagerView, w: PagerView, p: int, c: int, r: Result<(), TableError>) -> bool
    decreases TABLE_MAX_PAGES - v.num_pages, 1nat,
{
    let a = v.pages[p];
    let b = w.pages[p];
    let ck = max_key(v.pages[c]);
    let rk = max_key(v.pages[right_child(a) as int]);
    &&& insert_outcome(v, w, r)
    &&& r is Err ==> v.num_pages + pages_to_add(v.pages, v.num_pages, p, TABLE_MAX_PAGES as nat) > TABLE_MAX_PAGES
    &&& r is Ok ==> children_kept(v.pages, v.num_pages, w) && attached(w, c)
    &&& num_keys(a) < INTERNAL_NODE_MAX_CELLS ==> {
        &&& r is Ok
        &&& w.num_pages == v.num_pages
        &&& forall|q: int| 0 <= q < TABLE_MAX_PAGES && q != p ==> #[trigger] w.pages[q] == v.pages[q]
        &&& ck > rk ==> internal_appended(a, b, c as u32, rk)
        &&& ck <= rk ==> exists|idx: int| is_lower_bound(a, ck, idx) && #[trigger] internal_inserted(a, b, idx, c as u32, ck)
    }
    &&& num_keys(a) >= INTERNAL_NODE_MAX_CELLS ==> internal_split_outcome(page_content(v), w, p, c, r)
}

/// The outcome of a split depends on the pages and their number alone.
proof fn lemma_split_outcome_content(v: PagerView, w: PagerView, pp: int, c: int, r: Result<(), TableError>)
    requires
        internal_split_outcome(v, w, pp, c, r),
    ensures
        internal_split_outcome(page_content(v), w, pp, c, r),
{
    let u = page_content(v);
    let a = v.pages[pp];
    let rk = max_key(v.pages[right_child(a) as int]);
    let ck = max_key(v.pages[c]);
    assert(insert_outcome(u, w, r));
    if !root_flag(a) && r is Ok {
        let s = choose|s: PagerView| s.num_pages == v.num_pages + 1 && s.num_pages <= TABLE_MAX_PAGES
            && #[trigger] internal_split_mid(v, s, pp, c as u32, rk, ck)
            && internal_insert_outcome(s, w, parent_of(a) as int, v.num_pages as int, r);
        assert(internal_split_mid(u, s, pp, c as u32, rk, ck));
    }
}

/// The pages of `v` and their number, with nothing brought in: what the tree operations read.
pub open spec fn page_content(v: PagerView) -> PagerView {
    PagerView { file_length: 0, num_pages: v.num_pages, pages: v.pages, cached: Seq::empty() }
}

/// The state `s` reached when full leaf `page` of `pages` (with `n` pages in use), not the
/// root, has been split for the new cell `nc` at `cell` and its parent's key for it updated,
/// just before the new leaf on page `n` is added to the parent: the leaf keeps the first
/// seven of the fourteen cells and its parent; page `n` is a leaf under the same parent; the
/// parent's key at the place of the leaf's old largest key becomes the leaf's new largest
/// key; every other page in use is as it was.
pub open spec fn leaf_split_mid(pages: Seq<Seq<u8>>, n: nat, s: PagerView, page: int, cell: int, nc: Seq<u8>) -> bool {
    let a = pages[page];
    let g = parent_of(a) as int;
    let left = s.pages[page];
    let m = merged_cells(a, cell, nc);
    &&& s.num_pages == n + 1
    &&& is_leaf(left) && is_leaf(s.pages[n as int])
    &&& leaf_num_cells(left) == LEAF_NODE_LEFT_SPLIT_COUNT
    &&& forall|i: int| 0 <= i < LEAF_NODE_LEFT_SPLIT_COUNT ==> #[trigger] leaf_cell(left, i) == m[i]
    &&& parent_of(left) == parent_of(a) && parent_of(s.pages[n as int]) == parent_of(a)
    &&& root_flag(left) == root_flag(a) && !root_flag(s.pages[n as int])
    &&& exists|idx: int| #[trigger] is_lower_bound(pages[g], max_key(a), idx)
        && s.pages[g] == put_u32(pages[g], internal_cell_offset(idx) + INTERNAL_NODE_CHILD_SIZE, max_key(left))
    &&& forall|q: int| 0 <= q < n && q != page && q != g ==> #[trigger] s.pages[q] == pages[q]
}

/// The page that holds the left half of split leaf `page` of content `a`, when `n` pages were
/// in use: the leaf itself, or the page after the new one when the leaf was the root.
pub open spec fn split_left(a: Seq<u8>, n: nat, page: int) -> int {
    if root_flag(a) {
        (n + 1) as int
    } else {
        page
    }
}

/// What inserting a child into an internal page leads to: on success the tree is usable, no
/// page was given back, and every leaf differs at most in its parent pointer; a failure is
/// the page store running out of pages, and comes only once every page is in use.
pub open spec fn insert_outcome(v: PagerView, w: PagerView, r: Result<(), TableError>) -> bool {
    match r {
        Ok(_) => tree_usable(w) && w.num_pages >= v.num_pages && leaves_kept(v.pages, v.num_pages, w, Set::empty()),
        Err(e) => e == TableError::PagerError(PagerError::OutOfBounds(TABLE_MAX_PAGES)) && w.num_pages == TABLE_MAX_PAGES,
    }
}

/// The state in which the root has just been split: the root page is a usable node whose
/// parent pointer is 0, with at least one cell if it is a leaf; `right` is a page in use other than the root,
/// not flagged as root, and a usable node but for its parent pointer; and every other page in
/// use is a usable node.
pub open spec fn root_split_pending(v: PagerView, right: int) -> bool {
    let p0 = v.pages[0];
    let pr = v.pages[right];
    &&& storage_ok(v)
    &&& 1 <= v.num_pages <= TABLE_MAX_PAGES
    &&& 0 < right < v.num_pages
    &&& parent_of(p0) == 0
    &&& is_leaf(p0) ==> 1 <= leaf_num_cells(p0)
    &&& has_kind(pr) && has_root_flag(pr) && !root_flag(pr)
    &&& is_leaf(pr) ==> leaf_ok(v.pages, v.num_pages, right)
    &&& is_internal(pr) ==> internal_ok(v.pages, v.num_pages, right)
    &&& forall|q: int| 0 <= q < v.num_pages && q != right ==> #[trigger] node_ok(v.pages, v.num_pages, q)
}

/// The copy of an internal root, no longer flagged as root and pointing at page 0, has the
/// same kind, key count and children.
proof fn lemma_root_copy_children(p: Seq<u8>)
    requires
        p.len() == PAGE_SIZE,
        is_internal(p),
    ensures
        ({
            let b = put_u32(p.update(1, 0u8), PARENT_POINTER_OFFSET as int, 0);
            &&& b[0] == p[0]
            &&& num_keys(b) == num_keys(p)
            &&& forall|k: int| 0 <= k <= num_keys(p) && k <= INTERNAL_NODE_MAX_CELLS ==> #[trigger] child_at(b, k) == child_at(p, k)
        }),
{
    let q = p.update(1, 0u8);
    let b = put_u32(q, PARENT_POINTER_OFFSET as int, 0);
    crate::bytes::lemma_put_u32(q, PARENT_POINTER_OFFSET as int, 0);
    assert(b[6] == p[6] && b[7] == p[7] && b[8] == p[8] && b[9] == p[9]);
    assert(b[10] == p[10] && b[11] == p[11] && b[12] == p[12] && b[13] == p[13]);
    assert forall|k: int| 0 <= k <= num_keys(p) && k <= INTERNAL_NODE_MAX_CELLS implies #[trigger] child_at(b, k) == child_at(p, k) by {
        if k < num_keys(p) {
            let o = internal_cell_offset(k);
            assert(b[o] == p[o] && b[o + 1] == p[o + 1] && b[o + 2] == p[o + 2] && b[o + 3] == p[o + 3]);
        }
    }
}

/// The fields of a page rebuilt as an internal node over two children.
proof fn lemma_rebuilt_root_bytes(p0: Seq<u8>, root: Seq<u8>, left: u32, right: u32, lmax: u32)
    requires
        p0.len() == PAGE_SIZE,
        root == put_u32(put_u32(put_u32(put_u32(init_internal(p0), INTERNAL_NODE_NUM_KEYS_OFFSET as int, 1),
            internal_cell_offset(0), left), internal_cell_offset(0) + INTERNAL_NODE_CHILD_SIZE, lmax),
            INTERNAL_NODE_RIGHT_CHILD_OFFSET as int, right),
    ensures
        root.len() == PAGE_SIZE,
        is_internal(root),
        has_kind(root),
        has_root_flag(root),
        !root_flag(root),
        root[1] == 0,
        parent_of(root) == parent_of(p0),
        num_keys(root) == 1,
        cell_child(root, 0) == left,
        child_at(root, 0) == left,
        child_at(root, 1) == right,
        right_child(root) == right,
        internal_key(root, 0) == lmax,
{
    let s0 = p0.update(0, 0u8).update(1, 0u8);
    let s1 = put_u32(s0, INTERNAL_NODE_RIGHT_CHILD_OFFSET as int, INVALID_PAGE_NUM as u32);
    crate::bytes::lemma_put_u32(s0, INTERNAL_NODE_RIGHT_CHILD_OFFSET as int, INVALID_PAGE_NUM as u32);
    let s2 = put_u32(s1, INTERNAL_NODE_NUM_KEYS_OFFSET as int, 0);
    crate::bytes::lemma_put_u32(s1, INTERNAL_NODE_NUM_KEYS_OFFSET as int, 0);
    let s3 = put_u32(s2, INTERNAL_NODE_NUM_KEYS_OFFSET as int, 1);
    crate::bytes::lemma_put_u32(s2, INTERNAL_NODE_NUM_KEYS_OFFSET as int, 1);
    let s4 = put_u32(s3, internal_cell_offset(0), left);
    crate::bytes::lemma_put_u32(s3, internal_cell_offset(0), left);
    let s5 = put_u32(s4, internal_cell_offset(0) + INTERNAL_NODE_CHILD_SIZE, lmax);
    crate::bytes::lemma_put_u32(s4, internal_cell_offset(0) + INTERNAL_NODE_CHILD_SIZE, lmax);
    crate::bytes::lemma_put_u32(s5, INTERNAL_NODE_RIGHT_CHILD_OFFSET as int, right);
    assert(parent_of(root) == parent_of(p0));
    assert(num_keys(root) == 1);
    assert(cell_child(root, 0) == left);
    assert(internal_key(root, 0) == lmax);
}

/// The fields of the root page rebuilt over two children and flagged as root.
proof fn lemma_new_root_bytes(p0: Seq<u8>, root: Seq<u8>, left: u32, right: u32, lmax: u32)
    requires
        p0.len() == PAGE_SIZE,
        root == put_u32(put_u32(put_u32(put_u32(init_internal(p0), INTERNAL_NODE_NUM_KEYS_OFFSET as int, 1),
            internal_cell_offset(0), left), internal_cell_offset(0) + INTERNAL_NODE_CHILD_SIZE, lmax),
            INTERNAL_NODE_RIGHT_CHILD_OFFSET as int, right).update(1, 1u8),
    ensures
        root.len() == PAGE_SIZE,
        is_internal(root),
        has_kind(root),
        has_root_flag(root),
        root_flag(root),
        parent_of(root) == parent_of(p0),
        num_keys(root) == 1,
        cell_child(root, 0) == left,
        child_at(root, 0) == left,
        child_at(root, 1) == right,
        right_child(root) == right,
        internal_key(root, 0) == lmax,
{
    let base = put_u32(put_u32(put_u32(put_u32(init_internal(p0), INTERNAL_NODE_NUM_KEYS_OFFSET as int, 1),
        internal_cell_offset(0), left), internal_cell_offset(0) + INTERNAL_NODE_CHILD_SIZE, lmax),
        INTERNAL_NODE_RIGHT_CHILD_OFFSET as int, right);
    lemma_rebuilt_root_bytes(p0, base, left, right, lmax);
    assert(parent_of(root) == parent_of(base));
    assert(num_keys(root) == num_keys(base));
    assert(right_child(root) == right_child(base));
    assert(cell_child(root, 0) == cell_child(base, 0));
    assert(internal_key(root, 0) == internal_key(base, 0));
}

/// The fields of a page just initialized as an internal node.
proof fn lemma_init_internal_fields(p: Seq<u8>)
    requires
        p.len() == PAGE_SIZE,
    ensures
        init_internal(p).len() == PAGE_SIZE,
        is_internal(init_internal(p)),
        init_internal(p)[1] == 0,
        parent_of(init_internal(p)) == parent_of(p),
        num_keys(init_internal(p)) == 0,
{
    let s0 = p.update(0, 0u8).update(1, 0u8);
    let s1 = put_u32(s0, INTERNAL_NODE_RIGHT_CHILD_OFFSET as int, INVALID_PAGE_NUM as u32);
    crate::bytes::lemma_put_u32(s0, INTERNAL_NODE_RIGHT_CHILD_OFFSET as int, INVALID_PAGE_NUM as u32);
    crate::bytes::lemma_put_u32(s1, INTERNAL_NODE_NUM_KEYS_OFFSET as int, 0);
    assert(parent_of(init_internal(p)) == parent_of(p));
}

/// The header bytes an entry write keeps, and the children it leaves.
proof fn lemma_entries_kind(a: Seq<u8>, b: Seq<u8>, entries: Seq<(u32, u32)>)
    requires
        a.len() == PAGE_SIZE,
        1 <= entries.len() <= INTERNAL_NODE_MAX_CELLS + 1,
        entries_written(a, b, entries),
    ensures
        b.len() == PAGE_SIZE,
        b[0] == a[0],
        b[1] == a[1],
        parent_of(b) == parent_of(a),
        num_keys(b) == entries.len() - 1,
        forall|k: int| 0 <= k < entries.len() ==> #[trigger] child_at(b, k) == entries[k].0,
{
    assert(b[2] == a[2] && b[3] == a[3] && b[4] == a[4] && b[5] == a[5]);
    assert forall|k: int| 0 <= k < entries.len() implies #[trigger] child_at(b, k) == entries[k].0 by {
        if k < entries.len() - 1 {
            assert(internal_key(b, k) == entries[k].1);
            assert(cell_child(b, k) == entries[k].0);
        }
    }
}

/// A freshly initialized internal page holding `entries` whose children are all in use.
proof fn lemma_fresh_internal_fields(b0: Seq<u8>, b: Seq<u8>, entries: Seq<(u32, u32)>, n0: nat, pp: int, q: int, lim: nat)
    requires
        b0.len() == PAGE_SIZE,
        2 <= entries.len() <= INTERNAL_NODE_MAX_CELLS + 1,
        entries_written(init_internal(b0), b, entries),
        forall|t: int| 0 <= t < entries.len() ==> child_ok(n0, pp, #[trigger] entries[t].0),
        n0 <= q,
        n0 <= lim,
    ensures
        b.len() == PAGE_SIZE,
        is_internal(b),
        has_kind(b),
        has_root_flag(b),
        !root_flag(b),
        1 <= num_keys(b) <= INTERNAL_NODE_MAX_CELLS,
        forall|k: int| 0 <= k <= num_keys(b) ==> child_ok(lim, q, #[trigger] child_at(b, k)),
{
    lemma_init_internal_fields(b0);
    lemma_entries_kind(init_internal(b0), b, entries);
    assert forall|k: int| 0 <= k <= num_keys(b) implies child_ok(lim, q, #[trigger] child_at(b, k)) by {
        assert(child_ok(n0, pp, entries[k].0));
    }
}

/// Pointing pending page `q`, otherwise usable, at an internal parent makes it usable.
proof fn lemma_set_parent_pending(v: PagerView, pend: Set<int>, lim: nat, q: int, x: u32)
    requires
        almost_wf(v, pend, lim),
        pend.contains(q),
        0 < q < lim,
        x < lim,
        x != q,
        is_internal(v.pages[x as int]),
        is_internal(v.pages[q]),
        has_root_flag(v.pages[q]),
        !root_flag(v.pages[q]),
        1 <= num_keys(v.pages[q]) <= INTERNAL_NODE_MAX_CELLS,
        forall|k: int| 0 <= k <= num_keys(v.pages[q]) ==> child_ok(lim, q, #[trigger] child_at(v.pages[q], k)),
    ensures
        almost_wf(with_page(fault_in(v, q), q, put_u32(v.pages[q], PARENT_POINTER_OFFSET as int, x)), pend.remove(q), lim),
{
    let a = v.pages[q];
    let b = put_u32(a, PARENT_POINTER_OFFSET as int, x);
    crate::bytes::lemma_put_u32(a, PARENT_POINTER_OFFSET as int, x);
    assert(b[0] == a[0]);
    assert(b[1] == a[1]);
    assert(num_keys(b) == num_keys(a));
    assert(right_child(b) == right_child(a));
    lemma_almost_wf_fault(v, q, pend, lim);
    let v1 = fault_in(v, q);
    assert(node_ok(v1.pages.update(q, b), lim, q)) by {
        assert(v1.pages.update(q, b)[x as int] == v.pages[x as int]);
        assert forall|k: int| 0 <= k <= num_keys(b) implies child_ok(lim, q, #[trigger] child_at(b, k)) by {
            assert(child_ok(lim, q, child_at(a, k)));
            if k < num_keys(a) {
                assert(cell_child(b, k) == cell_child(a, k));
            }
        }
    }
    lemma_almost_wf_write(v1, q, b, pend, pend.remove(q), lim);
}

/// Changing a key of a usable internal page keeps it usable.
proof fn lemma_key_write_node_ok(pages: Seq<Seq<u8>>, lim: nat, g: int, idx: int, key: u32)
    requires
        0 <= g < pages.len(),
        lim <= pages.len(),
        pages[g].len() == PAGE_SIZE,
        node_ok(pages, lim, g),
        is_internal(pages[g]),
        0 <= idx <= num_keys(pages[g]) <= INTERNAL_NODE_MAX_CELLS,
    ensures
        node_ok(pages.update(g, put_u32(pages[g], internal_cell_offset(idx) + INTERNAL_NODE_CHILD_SIZE, key)), lim, g),
        put_u32(pages[g], internal_cell_offset(idx) + INTERNAL_NODE_CHILD_SIZE, key).len() == PAGE_SIZE,
        is_internal(put_u32(pages[g], internal_cell_offset(idx) + INTERNAL_NODE_CHILD_SIZE, key)),
        parent_of(put_u32(pages[g], internal_cell_offset(idx) + INTERNAL_NODE_CHILD_SIZE, key)) == parent_of(pages[g]),
{
    let a = pages[g];
    let b = put_u32(a, internal_cell_offset(idx) + INTERNAL_NODE_CHILD_SIZE, key);
    crate::bytes::lemma_put_u32(a, internal_cell_offset(idx) + INTERNAL_NODE_CHILD_SIZE, key);
    let w = pages.update(g, b);
    assert(b[0] == a[0]);
    assert(b[1] == a[1]);
    assert(parent_of(b) == parent_of(a));
    assert(num_keys(b) == num_keys(a));
    assert(right_child(b) == right_child(a));
    if !root_flag(a) {
        let par = parent_of(a) as int;
        assert(is_internal(pages[par]));
        assert(is_internal(w[par]));
    }
    assert forall|k: int| 0 <= k <= num_keys(b) implies child_ok(lim, g, #[trigger] child_at(b, k)) by {
        assert(child_ok(lim, g, child_at(a, k)));
        if k < num_keys(a) {
            assert(cell_child(b, k) == cell_child(a, k));
        }
    }
}

/// Pages that are equal keep every leaf.
proof fn lemma_leaves_kept_refl(pages: Seq<Seq<u8>>, n: nat, w: PagerView)
    requires
        w.pages == pages,
    ensures
        leaves_kept(pages, n, w, Set::empty()),
{
}

impl Table {
    /// Turns the root page into an internal node over two children: a copy of the old root on
    /// the first free page, and `right_child_page_num`. It fails only when every page is in
    /// use.
    pub fn create_new_root(&mut self, right_child_page_num: usize) -> (r: Result<(), TableError>)
        requires
            old(self).wf(),
            root_split_pending(old(self)@, right_child_page_num as int),
        ensures
            final(self).wf(),
            ({
                let v = old(self)@;
                let w = final(self)@;
                let left = v.num_pages as int;
                match r {
                    Ok(_) => {
                        &&& tree_usable(w)
                        &&& w.num_pages == v.num_pages + 1
                        &&& is_internal(w.pages[0]) && root_flag(w.pages[0]) && num_keys(w.pages[0]) == 1
                        &&& child_at(w.pages[0], 0) == left
                        &&& right_child(w.pages[0]) == right_child_page_num
                        &&& internal_key(w.pages[0], 0) == max_key(v.pages[0])
                        &&& w.pages[left] == put_u32(v.pages[0].update(1, 0u8), PARENT_POINTER_OFFSET as int, 0)
                        &&& leaves_kept(v.pages, v.num_pages, w, set![0])
                        &&& children_kept(v.pages, v.num_pages, w)
                        &&& attached(w, left) && attached(w, right_child_page_num as int)
                        &&& w.pages[right_child_page_num as int] == put_u32(v.pages[right_child_page_num as int], PARENT_POINTER_OFFSET as int, 0)
                    },
                    Err(e) => e == TableError::PagerError(PagerError::OutOfBounds(TABLE_MAX_PAGES))
                        && v.num_pages == TABLE_MAX_PAGES && w.num_pages == TABLE_MAX_PAGES,
                }
            }),
    {
        let ghost v0 = self@;
        let root_page_num = self.root_page_num;
        let mut root = match self.get_node_mut(root_page_num) {
            Ok(n) => n,
            Err(e) => {
                return Err(e);
            },
        };
        let mut right_child = match self.get_node_mut(right_child_page_num) {
            Ok(n) => n,
            Err(e) => {
                return Err(e);
            },
        };
        right_child.set_node_parent(root_page_num as u32);
        let ghost right_bytes = right_child@;
        self.put_node(right_child_page_num, right_child);
        let ghost v1 = self@;
        proof {
            lemma_parent_set(v0.pages[right_child_page_num as int], 0);
            lemma_children_same_parent(v0.pages[right_child_page_num as int], 0);
            assert(v1.pages == v0.pages.update(right_child_page_num as int, right_bytes));
        }
        let left_child_page_num = self.get_unused_page_num();
        let mut left_child = match self.get_node_mut(left_child_page_num) {
            Ok(n) => n,
            Err(e) => {
                return Err(e);
            },
        };
        left_child.page = copy_out(&root.page, 0, PAGE_SIZE);
        left_child.set_root_node(false);
        left_child.set_node_parent(root_page_num as u32);
        proof {
            crate::bytes::lemma_put_u32(v0.pages[0].update(1, 0u8), PARENT_POINTER_OFFSET as int, 0);
            assert(left_child@[0] == v0.pages[0][0]);
            assert(leaf_num_cells(left_child@) == leaf_num_cells(v0.pages[0]));
            assert(node_ok(v0.pages, v0.num_pages, 0));
        }
        let left_child_max_key = left_child.get_node_max_key();
        let ghost left_bytes = left_child@;
        self.put_node(left_child_page_num, left_child);
        root.initialize_internal_node();
        root.set_internal_node_num_keys(1);
        proof {
            crate::bytes::lemma_put_u32(init_internal(v0.pages[0]), INTERNAL_NODE_NUM_KEYS_OFFSET as int, 1);
        }
        root.set_internal_node_child(0, left_child_page_num);
        root.set_internal_node_key(0, left_child_max_key);
        root.set_internal_node_right_child(right_child_page_num);
        root.set_root_node(true);
        let ghost root_bytes = root@;
        self.put_node(root_page_num, root);
        proof {
            let w = self@;
            let n = v0.num_pages;
            let p0 = v0.pages[0];
            let rp = right_child_page_num as int;
            let left = n as int;
            assert(w.num_pages == n + 1);
            assert(w.pages =~= v0.pages.update(rp, right_bytes).update(left, left_bytes).update(0, root_bytes));
            let pr = v0.pages[rp];
            assert(right_bytes == put_u32(pr, PARENT_POINTER_OFFSET as int, 0));
            lemma_same_but_parent_leaf(pr, right_bytes);
            assert(right_bytes[0] == pr[0] && right_bytes[1] == pr[1]);
            // the copy of the old root
            assert(left_bytes =~= put_u32(p0.update(1, 0u8), PARENT_POINTER_OFFSET as int, 0));
            crate::bytes::lemma_put_u32(p0.update(1, 0u8), PARENT_POINTER_OFFSET as int, 0);
            assert(node_ok(v0.pages, n, 0));
            assert(leaf_num_cells(left_bytes) == leaf_num_cells(p0));
            assert(next_leaf(left_bytes) == next_leaf(p0));
            // the new root
            lemma_new_root_bytes(p0, root_bytes, left as u32, right_child_page_num as u32, left_child_max_key);
            assert(node_ok(w.pages, w.num_pages, 0));
            if is_internal(p0) {
                lemma_root_copy_children(p0);
                assert(internal_ok(v0.pages, n, 0));
                assert forall|k: int| 0 <= k <= num_keys(left_bytes) implies child_ok(w.num_pages, left, #[trigger] child_at(left_bytes, k)) by {
                    assert(child_at(left_bytes, k) == child_at(p0, k));
                    assert(child_ok(n, 0, child_at(p0, k)));
                }
            }
            assert(node_ok(w.pages, w.num_pages, left));
            assert(node_ok(w.pages, w.num_pages, rp)) by {
                assert(w.pages[rp] == right_bytes);
                if is_leaf(pr) {
                    assert(leaf_ok(v0.pages, n, rp));
                    let nx = next_leaf(w.pages[rp]);
                    if nx != 0 {
                        assert(is_leaf(v0.pages[nx as int]));
                        if nx as int != rp {
                            assert(w.pages[nx as int] == v0.pages[nx as int]);
                        }
                    }
                } else {
                    assert(internal_ok(v0.pages, n, rp));
                    assert forall|k: int| 0 <= k <= num_keys(right_bytes) implies child_ok(w.num_pages, rp, #[trigger] child_at(right_bytes, k)) by {
                        assert(child_at(right_bytes, k) == child_at(pr, k));
                        assert(child_ok(n, rp, child_at(pr, k)));
                    }
                }
            }
            assert forall|q: int| 0 <= q < w.num_pages && !page_kept(v0, w, q) implies #[trigger] node_ok(w.pages, w.num_pages, q) by {
                assert(q == 0 || q == left || q == rp);
            }
            lemma_tree_usable_frame(v0, w, rp);
            assert forall|q: int| 0 <= q < v0.num_pages && is_leaf(v0.pages[q]) && !set![0int].contains(q) implies
                #[trigger] same_but_parent(v0.pages[q], w.pages[q]) && is_leaf(w.pages[q]) by {
                if q != rp {
                    assert(w.pages[q] == v0.pages[q]);
                }
            }
            // the children of the old root are those of its copy; every other page keeps its own
            assert forall|q: int, k: int| 0 <= q < n && is_internal(v0.pages[q]) && 0 <= k <= num_keys(v0.pages[q])
                implies attached(w, #[trigger] child_at(v0.pages[q], k) as int) by {
                if q == 0 {
                    assert(internal_ok(v0.pages, n, 0));
                    assert(child_at(w.pages[left], k) == child_at(p0, k));
                    assert(is_child_at(w, left, k, child_at(p0, k) as int));
                } else if q == rp {
                    assert(internal_ok(v0.pages, n, rp));
                    assert(child_at(w.pages[q], k) == child_at(v0.pages[q], k));
                    assert(is_child_at(w, q, k, child_at(v0.pages[q], k) as int));
                } else {
                    assert(w.pages[q] == v0.pages[q]);
                    assert(is_child_at(w, q, k, child_at(v0.pages[q], k) as int));
                }
            }
            assert(is_child_at(w, 0, 0, left));
            assert(is_child_at(w, 0, 1, rp));
        }
        Ok(())
    }
}


// ---------------------------------------------------------------------------
// A tree under repair.

/// The tree is usable but for the pages in `pend`: every other page in use is a usable node
/// whose pointers stay below `lim`, every page in use from `lim` on is in `pend`, and the root
/// page keeps its root facts.
pub open spec fn almost_wf(v: PagerView, pend: Set<int>, lim: nat) -> bool {
    &&& storage_ok(v)
    &&& 1 <= v.num_pages <= TABLE_MAX_PAGES
    &&& lim <= v.num_pages
    &&& parent_of(v.pages[0]) == 0
    &&& is_leaf(v.pages[0]) ==> root_flag(v.pages[0])
    &&& forall|p: int| 0 <= p < v.num_pages && !pend.contains(p) ==> #[trigger] node_ok(v.pages, lim, p)
    &&& forall|p: int| lim <= p < v.num_pages ==> #[trigger] pend.contains(p)
}

/// A node usable with pointers below `n` is usable with pointers below any larger bound.
proof fn lemma_node_ok_mono(pages: Seq<Seq<u8>>, n: nat, m: nat, p: int)
    requires
        node_ok(pages, n, p),
        n <= m,
    ensures
        node_ok(pages, m, p),
{
    let pg = pages[p];
    if is_internal(pg) {
        assert forall|k: int| 0 <= k <= num_keys(pg) implies child_ok(m, p, #[trigger] child_at(pg, k)) by {
            assert(child_ok(n, p, child_at(pg, k)));
        }
    }
}

/// A usable tree is a tree under repair with nothing pending.
proof fn lemma_almost_wf_from_tree(v: PagerView)
    requires
        tree_usable(v),
    ensures
        almost_wf(v, Set::empty(), v.num_pages),
{
}

/// A tree under repair with nothing pending is usable.
proof fn lemma_almost_wf_to_tree(v: PagerView, lim: nat)
    requires
        almost_wf(v, Set::empty(), lim),
    ensures
        tree_usable(v),
        lim == v.num_pages,
{
    if lim < v.num_pages {
        assert(Set::<int>::empty().contains(lim as int));
    }
    assert forall|p: int| 0 <= p < v.num_pages implies #[trigger] node_ok(v.pages, v.num_pages, p) by {
        assert(!Set::<int>::empty().contains(p));
    }
}

/// The pointer bound can be raised up to the number of pages in use.
proof fn lemma_almost_wf_raise(v: PagerView, pend: Set<int>, lim: nat, lim2: nat)
    requires
        almost_wf(v, pend, lim),
        lim <= lim2 <= v.num_pages,
    ensures
        almost_wf(v, pend, lim2),
{
    assert forall|p: int| 0 <= p < v.num_pages && !pend.contains(p) implies #[trigger] node_ok(v.pages, lim2, p) by {
        lemma_node_ok_mono(v.pages, lim, lim2, p);
    }
    assert forall|p: int| lim2 <= p < v.num_pages implies #[trigger] pend.contains(p) by {
    }
}

/// Bringing in a page in use changes neither the pages nor their number.
proof fn lemma_almost_wf_fault(v: PagerView, q: int, pend: Set<int>, lim: nat)
    requires
        almost_wf(v, pend, lim),
        0 <= q < v.num_pages,
    ensures
        almost_wf(fault_in(v, q), pend, lim),
        fault_in(v, q).pages == v.pages,
        fault_in(v, q).num_pages == v.num_pages,
{
    let w = fault_in(v, q);
    assert forall|p: int| 0 <= p < TABLE_MAX_PAGES && #[trigger] w.cached[p] implies p < w.num_pages by {
        if p != q {
            assert(v.cached[p]);
        }
    }
}

/// Bringing in the first free page puts it in use, pending.
proof fn lemma_almost_wf_fresh(v: PagerView, pend: Set<int>, lim: nat)
    requires
        almost_wf(v, pend, lim),
        v.num_pages < TABLE_MAX_PAGES,
    ensures
        almost_wf(fault_in(v, v.num_pages as int), pend.insert(v.num_pages as int), lim),
        fault_in(v, v.num_pages as int).pages == v.pages,
        fault_in(v, v.num_pages as int).num_pages == v.num_pages + 1,
{
    let q = v.num_pages as int;
    let w = fault_in(v, q);
    let pend2 = pend.insert(q);
    assert forall|p: int| 0 <= p < TABLE_MAX_PAGES && #[trigger] w.cached[p] implies p < w.num_pages by {
        if p != q {
            assert(v.cached[p]);
        }
    }
    assert forall|p: int| 0 <= p < w.num_pages && !pend2.contains(p) implies #[trigger] node_ok(w.pages, lim, p) by {
        assert(!pend.contains(p));
    }
    assert forall|p: int| lim <= p < w.num_pages implies #[trigger] pend2.contains(p) by {
        if p != q {
            assert(pend.contains(p));
        }
    }
}

/// Writing page `q` keeps the tree under repair when the page keeps its kind wherever another
/// page may point to it, and is usable unless it stays pending.
proof fn lemma_almost_wf_write(v: PagerView, q: int, b: Seq<u8>, pend: Set<int>, pend2: Set<int>, lim: nat)
    requires
        almost_wf(v, pend, lim),
        0 <= q < v.num_pages,
        b.len() == PAGE_SIZE,
        forall|p: int| #[trigger] pend.contains(p) && p != q ==> pend2.contains(p),
        q >= lim ==> pend2.contains(q),
        q < lim && is_internal(v.pages[q]) ==> is_internal(b),
        q < lim && q != 0 && is_leaf(v.pages[q]) ==> is_leaf(b),
        !pend2.contains(q) ==> node_ok(v.pages.update(q, b), lim, q),
        q == 0 ==> parent_of(b) == 0 && (is_leaf(b) ==> root_flag(b)),
    ensures
        almost_wf(with_page(v, q, b), pend2, lim),
{
    let w = with_page(v, q, b);
    assert(w.pages == v.pages.update(q, b));
    assert forall|p: int| 0 <= p < w.num_pages && !pend2.contains(p) implies #[trigger] node_ok(w.pages, lim, p) by {
        if p != q {
            assert(!pend.contains(p));
            assert(node_ok(v.pages, lim, p));
            let pg = v.pages[p];
            assert(w.pages[p] == pg);
            if !root_flag(pg) {
                assert(is_internal(w.pages[parent_of(pg) as int]));
            }
            if is_leaf(pg) && next_leaf(pg) != 0 {
                assert(is_leaf(w.pages[next_leaf(pg) as int]));
            }
            if is_internal(pg) {
                assert forall|k: int| 0 <= k <= num_keys(pg) implies child_ok(lim, p, #[trigger] child_at(pg, k)) by {
                    assert(child_ok(lim, p, child_at(v.pages[p], k)));
                }
            }
        }
    }
    assert forall|p: int| lim <= p < w.num_pages implies #[trigger] pend2.contains(p) by {
        if p != q {
            assert(pend.contains(p));
        }
    }
}

/// A pending page below the bound that has become usable stops being pending.
proof fn lemma_almost_wf_settle(v: PagerView, pend: Set<int>, q: int, lim: nat)
    requires
        almost_wf(v, pend, lim),
        0 <= q < lim,
        node_ok(v.pages, lim, q),
    ensures
        almost_wf(v, pend.remove(q), lim),
{
    assert forall|p: int| 0 <= p < v.num_pages && !pend.remove(q).contains(p) implies #[trigger] node_ok(v.pages, lim, p) by {
        if p != q {
            assert(!pend.contains(p));
        }
    }
    assert forall|p: int| lim <= p < v.num_pages implies #[trigger] pend.remove(q).contains(p) by {
        assert(pend.contains(p));
    }
}

/// Pointing a usable page at an internal parent keeps it usable, and changes nothing else.
proof fn lemma_node_ok_set_parent(pages: Seq<Seq<u8>>, lim: nat, c: int, x: u32)
    requires
        0 <= c < pages.len(),
        lim <= pages.len(),
        pages[c].len() == PAGE_SIZE,
        node_ok(pages, lim, c),
        x < lim,
        x as int != c,
        is_internal(pages[x as int]),
    ensures
        put_u32(pages[c], PARENT_POINTER_OFFSET as int, x).len() == PAGE_SIZE,
        put_u32(pages[c], PARENT_POINTER_OFFSET as int, x)[0] == pages[c][0],
        put_u32(pages[c], PARENT_POINTER_OFFSET as int, x)[1] == pages[c][1],
        parent_of(put_u32(pages[c], PARENT_POINTER_OFFSET as int, x)) == x,
        same_but_parent(pages[c], put_u32(pages[c], PARENT_POINTER_OFFSET as int, x)),
        node_ok(pages.update(c, put_u32(pages[c], PARENT_POINTER_OFFSET as int, x)), lim, c),
{
    let a = pages[c];
    let b = put_u32(a, PARENT_POINTER_OFFSET as int, x);
    crate::bytes::lemma_put_u32(a, PARENT_POINTER_OFFSET as int, x);
    let w = pages.update(c, b);
    assert(b[0] == a[0]);
    assert(b[1] == a[1]);
    assert(leaf_num_cells(b) == leaf_num_cells(a));
    assert(next_leaf(b) == next_leaf(a));
    assert(num_keys(b) == num_keys(a));
    assert(right_child(b) == right_child(a));
    assert(w[x as int] == pages[x as int]);
    if is_leaf(a) && next_leaf(a) != 0 {
        assert(is_leaf(w[next_leaf(a) as int]));
    }
    if is_internal(a) {
        assert forall|k: int| 0 <= k <= num_keys(b) implies child_ok(lim, c, #[trigger] child_at(b, k)) by {
            assert(child_ok(lim, c, child_at(a, k)));
            if k < num_keys(a) {
                assert(cell_child(b, k) == cell_child(a, k));
            }
        }
    }
}

/// Writing page `q` keeps a leaf of `pages` as it is required when the new bytes do.
proof fn lemma_leaves_kept_write(pages: Seq<Seq<u8>>, n: nat, cur: PagerView, w: PagerView, except: Set<int>, q: int, b: Seq<u8>)
    requires
        leaves_kept(pages, n, cur, except),
        0 <= q < cur.pages.len(),
        n <= cur.pages.len(),
        w.pages == cur.pages.update(q, b),
        0 <= q < n && is_leaf(pages[q]) && !except.contains(q) ==> same_but_parent(pages[q], b) && is_leaf(b),
    ensures
        leaves_kept(pages, n, w, except),
{
    assert forall|p: int| 0 <= p < n && is_leaf(pages[p]) && !except.contains(p) implies
        #[trigger] same_but_parent(pages[p], w.pages[p]) && is_leaf(w.pages[p]) by {
        if p != q {
            assert(same_but_parent(pages[p], cur.pages[p]));
        }
    }
}

/// Leaves kept twice over are kept.
proof fn lemma_leaves_kept_trans(pages: Seq<Seq<u8>>, n: nat, mid: PagerView, m: nat, w: PagerView, except: Set<int>)
    requires
        leaves_kept(pages, n, mid, except),
        leaves_kept(mid.pages, m, w, Set::empty()),
        n <= m,
    ensures
        leaves_kept(pages, n, w, except),
{
    assert forall|p: int| 0 <= p < n && is_leaf(pages[p]) && !except.contains(p) implies
        #[trigger] same_but_parent(pages[p], w.pages[p]) && is_leaf(w.pages[p]) by {
        assert(same_but_parent(pages[p], mid.pages[p]));
        assert(!Set::<int>::empty().contains(p));
        assert(same_but_parent(mid.pages[p], w.pages[p]));
    }
}

/// The leaf fields of a page whose parent pointer alone changed.
pub proof fn lemma_same_but_parent_leaf(a: Seq<u8>, b: Seq<u8>)
    requires
        a.len() == PAGE_SIZE,
        same_but_parent(a, b),
    ensures
        b[0] == a[0],
        b[1] == a[1],
        leaf_num_cells(b) == leaf_num_cells(a),
        next_leaf(b) == next_leaf(a),
        forall|i: int| 0 <= i < LEAF_NODE_MAX_CELLS ==> #[trigger] leaf_cell(b, i) == leaf_cell(a, i),
{
    assert(b[6] == a[6] && b[7] == a[7] && b[8] == a[8] && b[9] == a[9]);
    assert(b[10] == a[10] && b[11] == a[11] && b[12] == a[12] && b[13] == a[13]);
    assert forall|i: int| 0 <= i < LEAF_NODE_MAX_CELLS implies #[trigger] leaf_cell(b, i) == leaf_cell(a, i) by {
        assert(leaf_cell(b, i) =~= leaf_cell(a, i));
    }
}

// ---------------------------------------------------------------------------
// Internal nodes.

/// Internal page `b` is internal page `a` with the cell child `c`, key `key` put in at cell
/// `idx`: one more key, the cells below `idx` kept, the new cell at `idx`, the cells from
/// `idx` on moved one place up, and the header and right child kept.
pub open spec fn internal_inserted(a: Seq<u8>, b: Seq<u8>, idx: int, c: u32, key: u32) -> bool {
    let n = num_keys(a) as int;
    &&& b.len() == a.len()
    &&& b[0] == a[0] && b[1] == a[1] && parent_of(b) == parent_of(a)
    &&& num_keys(b) == n + 1
    &&& cell_child(b, idx) == c && internal_key(b, idx) == key
    &&& forall|k: int| 0 <= k < idx ==> #[trigger] cell_child(b, k) == cell_child(a, k) && internal_key(b, k) == internal_key(a, k)
    &&& forall|k: int| idx < k <= n ==> #[trigger] cell_child(b, k) == cell_child(a, k - 1) && internal_key(b, k) == internal_key(a, k - 1)
    &&& right_child(b) == right_child(a)
}

/// Internal page `b` is internal page `a` with `c` as its new right child: one more key, the
/// cells kept, the old right child with key `rkey` in the new last cell, and the header kept.
pub open spec fn internal_appended(a: Seq<u8>, b: Seq<u8>, c: u32, rkey: u32) -> bool {
    let n = num_keys(a) as int;
    &&& b.len() == a.len()
    &&& b[0] == a[0] && b[1] == a[1] && parent_of(b) == parent_of(a)
    &&& num_keys(b) == n + 1
    &&& forall|k: int| 0 <= k < n ==> #[trigger] cell_child(b, k) == cell_child(a, k) && internal_key(b, k) == internal_key(a, k)
    &&& cell_child(b, n) == right_child(a) && internal_key(b, n) == rkey
    &&& right_child(b) == c
}

/// The byte-level effect of shifting the internal cells and writing the new one.
proof fn lemma_internal_insert_shift(a: Seq<u8>, shifted: Seq<u8>, b: Seq<u8>, idx: int, c: u32, key: u32)
    requires
        a.len() == PAGE_SIZE,
        0 <= idx <= num_keys(a) < INTERNAL_NODE_MAX_CELLS,
        shifted.len() == a.len(),
        forall|j: int| 0 <= j < a.len() ==> #[trigger] shifted[j] == (
            if internal_cell_offset(idx + 1) <= j < internal_cell_offset(num_keys(a) + 1) {
                put_u32(a, INTERNAL_NODE_NUM_KEYS_OFFSET as int, (num_keys(a) + 1) as u32)[j - INTERNAL_NODE_CELL_SIZE]
            } else {
                put_u32(a, INTERNAL_NODE_NUM_KEYS_OFFSET as int, (num_keys(a) + 1) as u32)[j]
            }),
        b == put_u32(put_u32(shifted, internal_cell_offset(idx), c), internal_cell_offset(idx) + INTERNAL_NODE_CHILD_SIZE, key),
    ensures
        internal_inserted(a, b, idx, c, key),
{
    let n = num_keys(a) as int;
    let s0 = put_u32(a, INTERNAL_NODE_NUM_KEYS_OFFSET as int, (n + 1) as u32);
    crate::bytes::lemma_put_u32(a, INTERNAL_NODE_NUM_KEYS_OFFSET as int, (n + 1) as u32);
    let s1 = put_u32(shifted, internal_cell_offset(idx), c);
    crate::bytes::lemma_put_u32(shifted, internal_cell_offset(idx), c);
    crate::bytes::lemma_put_u32(s1, internal_cell_offset(idx) + INTERNAL_NODE_CHILD_SIZE, key);
    assert(b[2] == a[2] && b[3] == a[3] && b[4] == a[4] && b[5] == a[5]);
    assert(num_keys(b) == num_keys(s0));
    assert(right_child(b) == right_child(a));
    assert(cell_child(b, idx) == c);
    assert forall|k: int| 0 <= k < idx implies #[trigger] cell_child(b, k) == cell_child(a, k) && internal_key(b, k) == internal_key(a, k) by {
        let o = internal_cell_offset(k);
        assert(b[o] == a[o] && b[o + 1] == a[o + 1] && b[o + 2] == a[o + 2] && b[o + 3] == a[o + 3]);
        assert(b[o + 4] == a[o + 4] && b[o + 5] == a[o + 5] && b[o + 6] == a[o + 6] && b[o + 7] == a[o + 7]);
    }
    assert forall|k: int| idx < k <= n implies #[trigger] cell_child(b, k) == cell_child(a, k - 1) && internal_key(b, k) == internal_key(a, k - 1) by {
        let o = internal_cell_offset(k);
        let p = internal_cell_offset(k - 1);
        assert(b[o] == a[p] && b[o + 1] == a[p + 1] && b[o + 2] == a[p + 2] && b[o + 3] == a[p + 3]);
        assert(b[o + 4] == a[p + 4] && b[o + 5] == a[p + 5] && b[o + 6] == a[p + 6] && b[o + 7] == a[p + 7]);
    }
}

/// The byte-level effect of moving the right child into a new last cell.
proof fn lemma_internal_append_bytes(a: Seq<u8>, b: Seq<u8>, c: u32, rkey: u32)
    requires
        a.len() == PAGE_SIZE,
        0 <= num_keys(a) < INTERNAL_NODE_MAX_CELLS,
        b == put_u32(put_u32(put_u32(put_u32(a, INTERNAL_NODE_NUM_KEYS_OFFSET as int, (num_keys(a) + 1) as u32),
            internal_cell_offset(num_keys(a) as int), right_child(a)),
            internal_cell_offset(num_keys(a) as int) + INTERNAL_NODE_CHILD_SIZE, rkey),
            INTERNAL_NODE_RIGHT_CHILD_OFFSET as int, c),
    ensures
        internal_appended(a, b, c, rkey),
{
    let n = num_keys(a) as int;
    let s0 = put_u32(a, INTERNAL_NODE_NUM_KEYS_OFFSET as int, (n + 1) as u32);
    crate::bytes::lemma_put_u32(a, INTERNAL_NODE_NUM_KEYS_OFFSET as int, (n + 1) as u32);
    let s1 = put_u32(s0, internal_cell_offset(n), right_child(a));
    crate::bytes::lemma_put_u32(s0, internal_cell_offset(n), right_child(a));
    let s2 = put_u32(s1, internal_cell_offset(n) + INTERNAL_NODE_CHILD_SIZE, rkey);
    crate::bytes::lemma_put_u32(s1, internal_cell_offset(n) + INTERNAL_NODE_CHILD_SIZE, rkey);
    crate::bytes::lemma_put_u32(s2, INTERNAL_NODE_RIGHT_CHILD_OFFSET as int, c);
    assert(b[2] == a[2] && b[3] == a[3] && b[4] == a[4] && b[5] == a[5]);
    assert(num_keys(b) == num_keys(s0));
    assert(cell_child(b, n) == cell_child(s1, n));
    assert(internal_key(b, n) == internal_key(s2, n));
    assert forall|k: int| 0 <= k < n implies #[trigger] cell_child(b, k) == cell_child(a, k) && internal_key(b, k) == internal_key(a, k) by {
        let o = internal_cell_offset(k);
        assert(b[o] == a[o] && b[o + 1] == a[o + 1] && b[o + 2] == a[o + 2] && b[o + 3] == a[o + 3]);
        assert(b[o + 4] == a[o + 4] && b[o + 5] == a[o + 5] && b[o + 6] == a[o + 6] && b[o + 7] == a[o + 7]);
    }
}

/// An internal page of a usable tree that gained a child in use (other than the root and
/// itself) is still a usable node, and the tree stays usable.
proof fn lemma_internal_grown_tree_usable(v: PagerView, w: PagerView, p: int, c: u32)
    requires
        tree_usable(v),
        0 <= p < v.num_pages,
        is_internal(v.pages[p]),
        0 < c < v.num_pages,
        c as int != p,
        w.num_pages == v.num_pages,
        storage_ok(w),
        w.pages == v.pages.update(p, w.pages[p]),
        ({
            let a = v.pages[p];
            let b = w.pages[p];
            &&& b[0] == a[0] && b[1] == a[1] && parent_of(b) == parent_of(a)
            &&& num_keys(b) == num_keys(a) + 1 <= INTERNAL_NODE_MAX_CELLS
            &&& forall|k: int| 0 <= k <= num_keys(b) ==> #[trigger] child_at(b, k) == c
                || exists|k2: int| 0 <= k2 <= num_keys(a) && child_at(b, k) == #[trigger] child_at(a, k2)
        }),
    ensures
        tree_usable(w),
        leaves_kept(v.pages, v.num_pages, w, Set::empty()),
{
    let a = v.pages[p];
    let b = w.pages[p];
    assert(node_ok(v.pages, v.num_pages, p));
    assert(node_ok(w.pages, w.num_pages, p)) by {
        if !root_flag(b) {
            assert(is_internal(w.pages[parent_of(b) as int]));
        }
        assert forall|k: int| 0 <= k <= num_keys(b) implies child_ok(w.num_pages, p, #[trigger] child_at(b, k)) by {
            if child_at(b, k) != c {
                let k2 = choose|k2: int| 0 <= k2 <= num_keys(a) && child_at(b, k) == #[trigger] child_at(a, k2);
                assert(child_ok(v.num_pages, p, child_at(a, k2)));
            }
        }
    }
    assert forall|q: int| 0 <= q < w.num_pages && !page_kept(v, w, q) implies #[trigger] node_ok(w.pages, w.num_pages, q) by {
        assert(q == p);
    }
    lemma_tree_usable_frame_from(v, w);
    assert forall|q: int| 0 <= q < v.num_pages && is_leaf(v.pages[q]) && !Set::<int>::empty().contains(q) implies
        #[trigger] same_but_parent(v.pages[q], w.pages[q]) && is_leaf(w.pages[q]) by {
        assert(q != p);
    }
}

/// A usable tree whose internal page `p`, with room, gained child `c` as `internal_inserted`
/// or `internal_appended` describe is still usable, and only that page changed.
proof fn lemma_internal_insert_done(v: PagerView, w: PagerView, p: int, c: u32, b: Seq<u8>, idx: int, key: u32, appended: bool)
    requires
        tree_usable(v),
        0 <= p < v.num_pages,
        is_internal(v.pages[p]),
        num_keys(v.pages[p]) < INTERNAL_NODE_MAX_CELLS,
        0 < c < v.num_pages,
        c as int != p,
        w.num_pages == v.num_pages,
        storage_ok(w),
        w.pages == v.pages.update(p, b),
        appended ==> internal_appended(v.pages[p], b, c, key),
        !appended ==> 0 <= idx <= num_keys(v.pages[p]) && internal_inserted(v.pages[p], b, idx, c, key),
    ensures
        tree_usable(w),
        leaves_kept(v.pages, v.num_pages, w, Set::empty()),
        children_kept(v.pages, v.num_pages, w),
        attached(w, c as int),
{
    let a = v.pages[p];
    let n = num_keys(a) as int;
    assert(node_ok(v.pages, v.num_pages, p));
    // where each old child of `p` and the new one stand
    assert forall|q: int, k: int| 0 <= q < v.num_pages && is_internal(v.pages[q]) && 0 <= k <= num_keys(v.pages[q])
        implies attached(w, #[trigger] child_at(v.pages[q], k) as int) by {
        let ch = child_at(v.pages[q], k) as int;
        if q != p {
            assert(w.pages[q] == v.pages[q]);
            assert(is_child_at(w, q, k, ch));
        } else if appended {
            assert(is_child_at(w, p, k, ch));
        } else if k < idx {
            assert(is_child_at(w, p, k, ch));
        } else {
            assert(child_at(b, k + 1) == child_at(a, k));
            assert(is_child_at(w, p, k + 1, ch));
        }
    }
    if appended {
        assert(is_child_at(w, p, n + 1, c as int));
    } else {
        assert(is_child_at(w, p, idx, c as int));
    }
    assert forall|k: int| 0 <= k <= num_keys(b) implies #[trigger] child_at(b, k) == c
        || exists|k2: int| 0 <= k2 <= num_keys(a) && child_at(b, k) == #[trigger] child_at(a, k2) by {
        if appended {
            if k < n {
                assert(child_at(b, k) == child_at(a, k));
            } else if k == n {
                assert(child_at(b, k) == child_at(a, n));
            }
        } else {
            if k < idx {
                assert(child_at(b, k) == child_at(a, k));
            } else if idx < k <= n {
                assert(child_at(b, k) == child_at(a, k - 1));
            } else if k == n + 1 {
                assert(child_at(b, k) == child_at(a, n));
            }
        }
    }
    lemma_internal_grown_tree_usable(v, w, p, c);
}

impl Table {
    /// Adds child page `child_page_num` to internal page `parent_page_num`. A full parent is
    /// split. Otherwise the parent gets one more key: a child whose largest key is above the
    /// right child's becomes the new right child, the old right child moving into the new last
    /// cell with its largest key; any other child goes, with its largest key, into the cell
    /// the search for that key among the parent's keys stops at, the cells from there on
    /// moving one place up. An empty parent, with no key and no right child, takes the child
    /// as its right child and stays without keys.
    #[verifier::spinoff_prover]
    #[verifier::rlimit(60)]
    pub fn internal_node_insert(&mut self, parent_page_num: usize, child_page_num: usize) -> (r: Result<(), TableError>)
        requires
            old(self).wf(),
            tree_usable(old(self)@) || empty_parent(old(self)@, parent_page_num as int, child_page_num as int),
            parent_page_num < old(self)@.num_pages,
            is_internal(old(self)@.pages[parent_page_num as int]),
            0 < child_page_num < old(self)@.num_pages,
            child_page_num != parent_page_num,
        ensures
            final(self).wf(),
            tree_usable(old(self)@) ==> internal_insert_outcome(old(self)@, final(self)@, parent_page_num as int, child_page_num as int, r),
            empty_parent(old(self)@, parent_page_num as int, child_page_num as int) ==> {
                &&& r is Ok
                &&& final(self)@.num_pages == old(self)@.num_pages
                &&& final(self)@.pages == old(self)@.pages.update(parent_page_num as int,
                    put_u32(old(self)@.pages[parent_page_num as int], INTERNAL_NODE_RIGHT_CHILD_OFFSET as int, child_page_num as u32))
            },
        decreases TABLE_MAX_PAGES - old(self)@.num_pages, 1nat,
    {
        let ghost v0 = self@;
        let ghost pp = parent_page_num as int;
        let ghost a = v0.pages[pp];
        proof {
            if tree_usable(v0) {
                assert(node_ok(v0.pages, v0.num_pages, pp));
                assert(node_ok(v0.pages, v0.num_pages, child_page_num as int));
                assert(!empty_parent(v0, pp, child_page_num as int));
            }
        }
        let mut parent = match self.get_node_mut(parent_page_num) {
            Ok(n) => n,
            Err(e) => {
                return Err(e);
            },
        };
        let child_max_key = match self.get_node_mut(child_page_num) {
            Ok(child) => child.get_node_max_key(),
            Err(e) => {
                return Err(e);
            },
        };
        let ghost v1 = self@;
        let index = parent.internal_node_find_child(child_max_key);
        let old_num_keys = parent.get_internal_node_num_keys() as usize;
        if old_num_keys >= INTERNAL_NODE_MAX_CELLS {
            proof {
                lemma_fault_in_tree_usable(v0, pp);
                lemma_fault_in_tree_usable(fault_in(v0, pp), child_page_num as int);
            }
            let ghost v2 = self@;
            let r = self.internal_node_split_and_insert(parent_page_num, child_page_num);
            proof {
                assert(v2.pages == v0.pages && v2.num_pages == v0.num_pages);
                lemma_split_outcome_content(v2, self@, pp, child_page_num as int, r);
                assert(page_content(v2) == page_content(v0));
            }
            return r;
        }
        let right_child_page_num = parent.get_internal_node_right_child() as usize;
        proof {
            if tree_usable(v0) {
                assert(child_ok(v0.num_pages, pp, child_at(a, num_keys(a) as int)));
            }
        }
        if right_child_page_num == INVALID_PAGE_NUM {
            // an empty node takes the child as its right child
            parent.set_internal_node_right_child(child_page_num);
            self.put_node(parent_page_num, parent);
            proof {
                assert(self@.pages =~= v0.pages.update(pp, put_u32(a, INTERNAL_NODE_RIGHT_CHILD_OFFSET as int, child_page_num as u32)));
            }
            return Ok(());
        }
        proof {
            assert(tree_usable(v0));
        }
        parent.set_internal_node_num_keys(old_num_keys + 1);
        let ghost s0 = parent@;
        proof {
            crate::bytes::lemma_put_u32(a, INTERNAL_NODE_NUM_KEYS_OFFSET as int, (old_num_keys + 1) as u32);
            assert(right_child(s0) == right_child(a));
        }
        proof {
            assert(node_ok(v0.pages, v0.num_pages, right_child_page_num as int));
        }
        let right_child_max_key = match self.get_node_mut(right_child_page_num) {
            Ok(rc) => rc.get_node_max_key(),
            Err(e) => {
                return Err(e);
            },
        };
        let ghost v2 = self@;
        if child_max_key > right_child_max_key {
            // the new child becomes the right child; the old one moves into a cell
            parent.set_internal_node_child(old_num_keys, right_child_page_num);
            parent.set_internal_node_key(old_num_keys, right_child_max_key);
            parent.set_internal_node_right_child(child_page_num);
            proof {
                lemma_internal_append_bytes(a, parent@, child_page_num as u32, right_child_max_key);
            }
        } else {
            // make room for the new cell
            let mut i: usize = old_num_keys;
            while i > index
                invariant
                    parent.wf(),
                    is_internal(parent@),
                    index <= i <= old_num_keys < INTERNAL_NODE_MAX_CELLS,
                    s0.len() == PAGE_SIZE,
                    parent@.len() == s0.len(),
                    forall|j: int| 0 <= j < s0.len() ==> #[trigger] parent@[j] == (
                        if internal_cell_offset(i as int + 1) <= j < internal_cell_offset(old_num_keys as int + 1) {
                            s0[j - INTERNAL_NODE_CELL_SIZE]
                        } else {
                            s0[j]
                        }),
                decreases i,
            {
                parent.copy_internal_cell(i - 1, i);
                i = i - 1;
            }
            let ghost shifted = parent@;
            proof {
                crate::bytes::lemma_put_u32(a, INTERNAL_NODE_NUM_KEYS_OFFSET as int, (old_num_keys + 1) as u32);
                assert(num_keys(shifted) == num_keys(s0));
            }
            parent.set_internal_node_child(index, child_page_num);
            parent.set_internal_node_key(index, child_max_key);
            proof {
                lemma_internal_insert_shift(a, shifted, parent@, index as int, child_page_num as u32, child_max_key);
            }
        }
        let ghost b = parent@;
        self.put_node(parent_page_num, parent);
        proof {
            let w = self@;
            assert(v2.pages == v0.pages);
            assert(w.pages =~= v0.pages.update(pp, b));
            let appended = child_max_key > right_child_max_key;
            let key = if appended { right_child_max_key } else { child_max_key };
            lemma_internal_insert_done(v0, w, pp, child_page_num as u32, b, index as int, key, appended);
            assert(child_max_key == max_key(v0.pages[child_page_num as int]));
            assert(right_child_max_key == max_key(v0.pages[right_child(a) as int]));
            if child_max_key <= right_child_max_key {
                assert(is_lower_bound(a, child_max_key, index as int) && internal_inserted(a, b, index as int, child_page_num as u32, child_max_key));
            } else {
                assert(internal_appended(a, b, child_page_num as u32, right_child_max_key));
            }
            assert(forall|q: int| 0 <= q < TABLE_MAX_PAGES && q != parent_page_num ==> #[trigger] w.pages[q] == v0.pages[q]);
            assert(w.num_pages == v0.num_pages);
            let ck = max_key(v0.pages[child_page_num as int]);
            let rk = max_key(v0.pages[right_child(a) as int]);
            assert(ck > rk ==> internal_appended(a, w.pages[pp], child_page_num as u32, rk));
            if ck <= rk {
                assert(w.pages[pp] == b);
                assert(is_lower_bound(a, ck, index as int));
                assert(internal_inserted(a, w.pages[pp], index as int, child_page_num as u32, ck));
            }
            assert(insert_outcome(v0, w, Ok(())));
        }
        Ok(())
    }
}

/// The children of full internal page `a` with their keys, in order: each cell's child and
/// key, then the right child with `rkey`.
pub open spec fn old_entries(a: Seq<u8>, rkey: u32) -> Seq<(u32, u32)> {
    Seq::new((num_keys(a) + 1) as nat, |k: int| if k < num_keys(a) { (cell_child(a, k), internal_key(a, k)) } else { (right_child(a), rkey) })
}

/// The first index from `from` on whose key is at or above `key`; the length of `s` when
/// there is none.
pub open spec fn first_at_least(s: Seq<(u32, u32)>, key: u32, from: int) -> int
    decreases s.len() - from,
{
    if from >= s.len() || from < 0 {
        s.len() as int
    } else if s[from].1 >= key {
        from
    } else {
        first_at_least(s, key, from + 1)
    }
}

/// The entries that splitting full internal page `a` divides: its children with their keys,
/// with `child` and `ckey` put in before the first entry whose key is at or above `ckey`.
pub open spec fn split_entries(a: Seq<u8>, rkey: u32, child: u32, ckey: u32) -> Seq<(u32, u32)> {
    let e = old_entries(a, rkey);
    e.insert(first_at_least(e, ckey, 0), (child, ckey))
}

/// Internal page `p` has `entries` as its children: one key fewer than entries, entry `k`'s
/// child and key in cell `k`, and the last entry's child as the right child.
pub open spec fn holds_entries(p: Seq<u8>, entries: Seq<(u32, u32)>) -> bool {
    let len = entries.len() as int;
    &&& is_internal(p)
    &&& num_keys(p) == len - 1
    &&& right_child(p) == entries[len - 1].0
    &&& forall|k: int| 0 <= k < len - 1 ==> #[trigger] cell_child(p, k) == entries[k].0
    &&& forall|k: int| 0 <= k < len - 1 ==> #[trigger] internal_key(p, k) == entries[k].1
}

/// The entries written into an internal page are the entries it holds.
proof fn lemma_entries_hold(a: Seq<u8>, b: Seq<u8>, entries: Seq<(u32, u32)>)
    requires
        is_internal(a),
        a.len() == PAGE_SIZE,
        1 <= entries.len() <= INTERNAL_NODE_MAX_CELLS + 1,
        entries_written(a, b, entries),
    ensures
        holds_entries(b, entries),
{
    assert(b[0] == a[0]);
}

/// Setting the parent pointer of an internal page keeps the entries it holds.
proof fn lemma_holds_entries_parent(p: Seq<u8>, entries: Seq<(u32, u32)>, x: u32)
    requires
        p.len() == PAGE_SIZE,
        2 <= entries.len() <= INTERNAL_NODE_MAX_CELLS + 1,
        holds_entries(p, entries),
    ensures
        holds_entries(put_u32(p, PARENT_POINTER_OFFSET as int, x), entries),
        parent_of(put_u32(p, PARENT_POINTER_OFFSET as int, x)) == x,
{
    let b = put_u32(p, PARENT_POINTER_OFFSET as int, x);
    crate::bytes::lemma_put_u32(p, PARENT_POINTER_OFFSET as int, x);
    assert(b[0] == p[0]);
    assert(num_keys(b) == num_keys(p));
    assert(right_child(b) == right_child(p));
    let len = entries.len() as int;
    assert forall|k: int| 0 <= k < len - 1 implies #[trigger] cell_child(b, k) == entries[k].0 by {
        assert(cell_child(b, k) == cell_child(p, k));
    }
    assert forall|k: int| 0 <= k < len - 1 implies #[trigger] internal_key(b, k) == entries[k].1 by {
        assert(internal_key(b, k) == internal_key(p, k));
    }
}

/// Pointing child `c` of a tree under repair at internal page `x` keeps the tree under repair
/// and keeps every leaf of `pages` that was kept.
proof fn lemma_repoint_child(v: PagerView, pend: Set<int>, lim: nat, c: int, x: u32, pages: Seq<Seq<u8>>, n: nat)
    requires
        almost_wf(v, pend, lim),
        0 < c < v.num_pages,
        !pend.contains(c),
        x < lim,
        x as int != c,
        is_internal(v.pages[x as int]),
        leaves_kept(pages, n, v, Set::empty()),
        n <= v.num_pages,
    ensures
        ({
            let b = put_u32(v.pages[c], PARENT_POINTER_OFFSET as int, x);
            let w = with_page(fault_in(v, c), c, b);
            &&& almost_wf(w, pend, lim)
            &&& leaves_kept(pages, n, w, Set::empty())
            &&& w.pages == v.pages.update(c, b)
            &&& w.num_pages == v.num_pages
        }),
{
    let b = put_u32(v.pages[c], PARENT_POINTER_OFFSET as int, x);
    let v1 = fault_in(v, c);
    let w = with_page(v1, c, b);
    lemma_almost_wf_fault(v, c, pend, lim);
    assert(c < lim);
    assert(node_ok(v.pages, lim, c));
    lemma_node_ok_set_parent(v.pages, lim, c, x);
    lemma_almost_wf_write(v1, c, b, pend, pend, lim);
    if 0 <= c < n && is_leaf(pages[c]) {
        assert(same_but_parent(pages[c], v.pages[c]));
        assert(same_but_parent(pages[c], b));
    }
    lemma_leaves_kept_write(pages, n, v1, w, Set::empty(), c, b);
}

/// Setting the parent pointer makes it read back.
proof fn lemma_parent_set(p: Seq<u8>, x: u32)
    requires
        p.len() == PAGE_SIZE,
    ensures
        parent_of(put_u32(p, PARENT_POINTER_OFFSET as int, x)) == x,
        same_but_parent(p, put_u32(p, PARENT_POINTER_OFFSET as int, x)),
{
    crate::bytes::lemma_put_u32(p, PARENT_POINTER_OFFSET as int, x);
}

/// Leaves kept in a view are kept in any view with the same pages.
proof fn lemma_leaves_kept_same_pages(pages: Seq<Seq<u8>>, n: nat, w0: PagerView, w1: PagerView, except: Set<int>)
    requires
        leaves_kept(pages, n, w0, except),
        w1.pages == w0.pages,
    ensures
        leaves_kept(pages, n, w1, except),
{
}

/// Pointing page `c` at a new parent keeps every page the same but for its parent pointer.
proof fn lemma_same_but_parent_repoint(base: Seq<Seq<u8>>, n: nat, pages: Seq<Seq<u8>>, c: int, x: u32)
    requires
        0 <= c < pages.len(),
        pages[c].len() == PAGE_SIZE,
        n <= pages.len(),
        forall|q: int| 0 <= q < n ==> #[trigger] same_but_parent(base[q], pages[q]),
    ensures
        forall|q: int| 0 <= q < n ==> #[trigger] same_but_parent(base[q],
            pages.update(c, put_u32(pages[c], PARENT_POINTER_OFFSET as int, x))[q]),
{
    lemma_parent_set(pages[c], x);
    assert forall|q: int| 0 <= q < n implies #[trigger] same_but_parent(base[q],
        pages.update(c, put_u32(pages[c], PARENT_POINTER_OFFSET as int, x))[q]) by {
        assert(same_but_parent(base[q], pages[q]));
    }
}

/// The place of a key among the keys of an internal page does not depend on its parent
/// pointer.
proof fn lemma_lower_bound_same_but_parent(a: Seq<u8>, b: Seq<u8>, key: u32, idx: int)
    requires
        a.len() == PAGE_SIZE,
        same_but_parent(a, b),
        num_keys(a) <= INTERNAL_NODE_MAX_CELLS,
        is_lower_bound(b, key, idx),
    ensures
        is_lower_bound(a, key, idx),
{
    assert(b[6] == a[6] && b[7] == a[7] && b[8] == a[8] && b[9] == a[9]);
    assert forall|k: int| 0 <= k < num_keys(a) implies #[trigger] internal_key(b, k) == internal_key(a, k) by {
        let o = internal_cell_offset(k) + INTERNAL_NODE_CHILD_SIZE;
        assert(b[o] == a[o] && b[o + 1] == a[o + 1] && b[o + 2] == a[o + 2] && b[o + 3] == a[o + 3]);
    }
    if crate::node::keys_sorted(a) {
        assert(crate::node::keys_sorted(b)) by {
            assert forall|i: int, j: int| 0 <= i <= j < num_keys(b) implies internal_key(b, i) <= internal_key(b, j) by {
                assert(internal_key(b, i) == internal_key(a, i));
                assert(internal_key(b, j) == internal_key(a, j));
            }
        }
        assert forall|i: int| 0 <= i < idx implies #[trigger] internal_key(a, i) < key by {
            assert(internal_key(b, i) == internal_key(a, i));
        }
    }
    if idx < num_keys(a) {
        assert(internal_key(b, idx) == internal_key(a, idx));
    }
    if idx > 0 {
        assert(internal_key(b, idx - 1) == internal_key(a, idx - 1));
    }
}

/// The children among the five entries `e` of a split point at the page that holds them:
/// the first two at `lp`, the last three at `rp` (those that are not also among the first two).
pub open spec fn children_point_at(s: PagerView, e: Seq<(u32, u32)>, lp: int, rp: int) -> bool {
    &&& forall|j: int| 0 <= j < 2 ==> #[trigger] parent_of(s.pages[e[j].0 as int]) == lp
    &&& forall|j: int| 2 <= j < 5 && e[j].0 != e[0].0 && e[j].0 != e[1].0 ==> #[trigger] parent_of(s.pages[e[j].0 as int]) == rp
}

/// Page `q` is the child of one of the entries `e`.
pub open spec fn is_split_child(e: Seq<(u32, u32)>, q: int) -> bool {
    exists|j: int| #![trigger e[j]] 0 <= j < e.len() && e[j].0 as int == q
}

/// The state `s` reached when full internal page `pp` of `v`, not the root, has been split to
/// add child `child`, with `rk` the largest key of its right child and `ck` that of `child`,
/// just before the new page `n` (the first free page of `v`) is added to the grandparent `g`:
/// page `n`, initialized as an internal node, holds the last three of the five entries and
/// has `g` as parent; the children point at their new pages and change in nothing else;
/// every other page in use but `pp` and `g` is as it was; and, when `g` is not `pp`, `pp` has
/// the first two entries written into it, and `g` has its key at the place of `rk` among its
/// keys set to the largest key of `pp` (and its parent pointer changed only if it is one of
/// the children).
pub open spec fn internal_split_mid(v: PagerView, s: PagerView, pp: int, child: u32, rk: u32, ck: u32) -> bool {
    let a = v.pages[pp];
    let g = parent_of(a) as int;
    let e = split_entries(a, rk, child, ck);
    let n = v.num_pages as int;
    &&& s.num_pages == n + 1
    &&& holds_entries(s.pages[n], e.subrange(2, 5)) && parent_of(s.pages[n]) == g
    &&& exists|nb: Seq<u8>| #[trigger] entries_written(init_internal(v.pages[n]), nb, e.subrange(2, 5))
        && s.pages[n] == put_u32(nb, PARENT_POINTER_OFFSET as int, g as u32)
    &&& children_point_at(s, e, pp, n)
    &&& forall|q: int| 0 <= q < n && q != pp && q != g ==> #[trigger] same_but_parent(v.pages[q], s.pages[q])
    &&& forall|q: int| 0 <= q < n && q != pp && q != g && !is_split_child(e, q) ==> #[trigger] s.pages[q] == v.pages[q]
    &&& g != pp ==> {
        &&& holds_entries(s.pages[pp], e.subrange(0, 2))
        &&& entries_written(a, s.pages[pp], e.subrange(0, 2))
        &&& exists|idx: int| #[trigger] is_lower_bound(v.pages[g], rk, idx)
            && same_but_parent(put_u32(v.pages[g], internal_cell_offset(idx) + INTERNAL_NODE_CHILD_SIZE, e[1].1), s.pages[g])
        &&& !is_split_child(e, g) ==> parent_of(s.pages[g]) == parent_of(v.pages[g])
    }
}

/// What the pages of a split of full internal page `pp` below the root hold just before the
/// new page is added to the grandparent; see `internal_split_mid`. Also, no page asks for more
/// new pages than before the split.
proof fn lemma_internal_split_mid(v: PagerView, w0: PagerView, s: PagerView, pp: int, child: u32, rk: u32, ck: u32,
    e: Seq<(u32, u32)>, lb: Seq<u8>, nb: Seq<u8>, idx: int)
    requires
        tree_usable(v),
        0 <= pp < v.num_pages,
        is_internal(v.pages[pp]),
        num_keys(v.pages[pp]) == INTERNAL_NODE_MAX_CELLS,
        !root_flag(v.pages[pp]),
        e == split_entries(v.pages[pp], rk, child, ck),
        e.len() == 5,
        forall|j: int| 0 <= j < 5 ==> child_ok(v.num_pages, pp, #[trigger] e[j].0),
        entries_written(v.pages[pp], lb, e.subrange(0, 2)),
        entries_written(init_internal(v.pages[v.num_pages as int]), nb, e.subrange(2, 5)),
        v.pages[v.num_pages as int].len() == PAGE_SIZE,
        w0.pages[pp] == lb,
        forall|q: int| 0 <= q < v.num_pages && q != pp ==> #[trigger] same_but_parent(v.pages[q], w0.pages[q]),
        forall|q: int| 0 <= q < v.num_pages && q != pp ==> #[trigger] w0.pages[q] == v.pages[q] || is_split_child(e, q),
        forall|j: int| 0 <= j < 2 ==> #[trigger] parent_of(w0.pages[e[j].0 as int]) == pp,
        forall|j: int| 2 <= j < 5 && e[j].0 != e[0].0 && e[j].0 != e[1].0 ==> #[trigger] parent_of(w0.pages[e[j].0 as int]) == v.num_pages,
        s.num_pages == v.num_pages + 1,
        s.pages[v.num_pages as int] == put_u32(nb, PARENT_POINTER_OFFSET as int, parent_of(v.pages[pp])),
        forall|q: int| 0 <= q < v.num_pages && q != parent_of(v.pages[pp]) ==> #[trigger] s.pages[q] == w0.pages[q],
        0 <= idx <= INTERNAL_NODE_MAX_CELLS,
        is_lower_bound(w0.pages[parent_of(v.pages[pp]) as int], rk, idx),
        s.pages[parent_of(v.pages[pp]) as int] == put_u32(w0.pages[parent_of(v.pages[pp]) as int],
            internal_cell_offset(idx) + INTERNAL_NODE_CHILD_SIZE, e[1].1),
        w0.pages[parent_of(v.pages[pp]) as int].len() == PAGE_SIZE,
    ensures
        internal_split_mid(v, s, pp, child, rk, ck),
        forall|x: int| 0 <= x < v.num_pages ==> #[trigger] page_cost_kept(s.pages, s.num_pages, v.pages, x),
{
    let a = v.pages[pp];
    let n = v.num_pages as int;
    let g = parent_of(a) as int;
    assert(node_ok(v.pages, v.num_pages, pp));
    assert(g < n);
    assert(node_ok(v.pages, v.num_pages, g));
    lemma_init_internal_fields(v.pages[n]);
    lemma_entries_hold(init_internal(v.pages[n]), nb, e.subrange(2, 5));
    lemma_holds_entries_parent(nb, e.subrange(2, 5), g as u32);
    lemma_entries_kind(init_internal(v.pages[n]), nb, e.subrange(2, 5));
    lemma_entries_kind(a, lb, e.subrange(0, 2));
    lemma_key_write_fields(w0.pages[g], idx, e[1].1);
    assert(num_keys(s.pages[n]) == 2);
    // the children point at their pages
    assert forall|j: int| 0 <= j < 2 implies #[trigger] parent_of(s.pages[e[j].0 as int]) == pp by {
        assert(child_ok(v.num_pages, pp, e[j].0));
        assert(parent_of(s.pages[e[j].0 as int]) == parent_of(w0.pages[e[j].0 as int]));
    }
    assert forall|j: int| 2 <= j < 5 && e[j].0 != e[0].0 && e[j].0 != e[1].0
        implies #[trigger] parent_of(s.pages[e[j].0 as int]) == n by {
        assert(child_ok(v.num_pages, pp, e[j].0));
        assert(parent_of(s.pages[e[j].0 as int]) == parent_of(w0.pages[e[j].0 as int]));
    }
    assert(s.pages[n] == put_u32(nb, PARENT_POINTER_OFFSET as int, g as u32));
    assert(entries_written(init_internal(v.pages[n]), nb, e.subrange(2, 5)));
    if g != pp {
        lemma_entries_hold(a, lb, e.subrange(0, 2));
        assert(s.pages[pp] == lb);
        assert(same_but_parent(v.pages[g], w0.pages[g]));
        lemma_lower_bound_same_but_parent(v.pages[g], w0.pages[g], rk, idx);
        lemma_same_but_parent_put(v.pages[g], w0.pages[g], internal_cell_offset(idx) + INTERNAL_NODE_CHILD_SIZE, e[1].1);
        if !is_split_child(e, g) {
            assert(w0.pages[g] == v.pages[g]);
        }
    }
    // no page asks for more new pages
    assert forall|x: int| 0 <= x < n implies #[trigger] page_cost_kept(s.pages, s.num_pages, v.pages, x) by {
        if x == pp {
            if g == pp {
                assert(num_keys(s.pages[pp]) == num_keys(lb));
            }
            assert(num_keys(s.pages[pp]) == 1);
        } else {
            lemma_same_but_parent_fields(v.pages[x], w0.pages[x]);
            assert(num_keys(s.pages[x]) == num_keys(w0.pages[x]));
            assert(root_flag(s.pages[x]) == root_flag(w0.pages[x]));
            assert(parent_of(s.pages[x]) == parent_of(w0.pages[x]));
        }
    }
}

/// Writing the same four bytes after the parent pointer into two pages that differ at most in
/// their parent pointer leaves them so.
proof fn lemma_same_but_parent_put(a: Seq<u8>, b: Seq<u8>, off: int, x: u32)
    requires
        a.len() == PAGE_SIZE,
        same_but_parent(a, b),
        PARENT_POINTER_OFFSET + 4 <= off,
        off + 4 <= PAGE_SIZE,
    ensures
        same_but_parent(put_u32(a, off, x), put_u32(b, off, x)),
{
    crate::bytes::lemma_put_u32(a, off, x);
    crate::bytes::lemma_put_u32(b, off, x);
    let a2 = put_u32(a, off, x);
    let b2 = put_u32(b, off, x);
    assert forall|j: int| 0 <= j < a2.len() && !(PARENT_POINTER_OFFSET <= j < PARENT_POINTER_OFFSET + 4) implies #[trigger] b2[j] == a2[j] by {
        if !(off <= j < off + 4) {
            assert(b2[j] == b[j] && a2[j] == a[j]);
        } else {
            assert(a2[j] == crate::bytes::be_bytes(x)[j - off] && b2[j] == crate::bytes::be_bytes(x)[j - off]);
        }
    }
}

/// Internal page `p` has the children of `entries`, in order.
pub open spec fn holds_children(p: Seq<u8>, entries: Seq<(u32, u32)>) -> bool {
    &&& is_internal(p)
    &&& num_keys(p) == entries.len() - 1
    &&& forall|k: int| 0 <= k < entries.len() ==> #[trigger] child_at(p, k) == entries[k].0
}

/// A page that keeps the children of a page holding `entries` holds their children too.
proof fn lemma_holds_children_same(p: Seq<u8>, q: Seq<u8>, entries: Seq<(u32, u32)>)
    requires
        holds_children(p, entries),
        1 <= entries.len() <= INTERNAL_NODE_MAX_CELLS + 1,
        children_same(p, q),
    ensures
        holds_children(q, entries),
{
    assert forall|k: int| 0 <= k < entries.len() implies #[trigger] child_at(q, k) == entries[k].0 by {
        assert(child_at(p, k) == entries[k].0);
    }
}

/// A page holding `entries` holds their children.
proof fn lemma_holds_children_of_entries(p: Seq<u8>, entries: Seq<(u32, u32)>)
    requires
        holds_entries(p, entries),
        1 <= entries.len(),
    ensures
        holds_children(p, entries),
{
    assert forall|k: int| 0 <= k < entries.len() implies #[trigger] child_at(p, k) == entries[k].0 by {
        if k < entries.len() - 1 {
            assert(cell_child(p, k) == entries[k].0);
        }
    }
}

/// Pointing page `c` at a new parent keeps every page's children.
proof fn lemma_children_same_repoint(base: Seq<Seq<u8>>, n: nat, pages: Seq<Seq<u8>>, c: int, x: u32)
    requires
        0 <= c < pages.len(),
        pages[c].len() == PAGE_SIZE,
        n <= pages.len(),
        forall|q: int| 0 <= q < n ==> #[trigger] children_same(base[q], pages[q]),
    ensures
        forall|q: int| 0 <= q < n ==> #[trigger] children_same(base[q],
            pages.update(c, put_u32(pages[c], PARENT_POINTER_OFFSET as int, x))[q]),
{
    let b = put_u32(pages[c], PARENT_POINTER_OFFSET as int, x);
    lemma_children_same_parent(pages[c], x);
    assert forall|q: int| 0 <= q < n implies #[trigger] children_same(base[q], pages.update(c, b)[q]) by {
        if q == c {
            assert(children_same(base[q], pages[q]));
            lemma_children_same_trans(base[q], pages[q], b);
        } else {
            assert(children_same(base[q], pages[q]));
        }
    }
}

/// `first_at_least` names an index from `from` to the length of `s`.
proof fn lemma_first_at_least_bounds(s: Seq<(u32, u32)>, key: u32, from: int)
    requires
        0 <= from,
    ensures
        0 <= first_at_least(s, key, from) <= s.len(),
    decreases s.len() - from,
{
    if from < s.len() && s[from].1 < key {
        lemma_first_at_least_bounds(s, key, from + 1);
    }
}

/// After a full internal page `pp` of a usable tree is split, with the first two of its
/// entries and the new child on page `lp` and the other three on page `rp`, and every other
/// page in use keeps its children, no child is cut off and the new child is attached.
proof fn lemma_split_keeps_children(v: PagerView, pp: int, rk: u32, child: u32, ck: u32, w: PagerView, lp: int, rp: int)
    requires
        tree_usable(v),
        0 <= pp < v.num_pages <= w.num_pages,
        0 <= lp < w.num_pages,
        0 <= rp < w.num_pages,
        is_internal(v.pages[pp]),
        num_keys(v.pages[pp]) == INTERNAL_NODE_MAX_CELLS,
        forall|q: int| 0 <= q < v.num_pages && q != pp ==> #[trigger] children_same(v.pages[q], w.pages[q]),
        holds_children(w.pages[lp], split_entries(v.pages[pp], rk, child, ck).subrange(0, 2)),
        holds_children(w.pages[rp], split_entries(v.pages[pp], rk, child, ck).subrange(2, 5)),
    ensures
        children_kept(v.pages, v.num_pages, w),
        attached(w, child as int),
{
    let a = v.pages[pp];
    let e0 = old_entries(a, rk);
    let ins = first_at_least(e0, ck, 0);
    let e = split_entries(a, rk, child, ck);
    lemma_first_at_least_bounds(e0, ck, 0);
    e0.insert_ensures(ins, (child, ck));
    assert(e.len() == 5);
    assert forall|j: int| 0 <= j < 5 implies attached(w, #[trigger] e[j].0 as int) by {
        if j < 2 {
            assert(e.subrange(0, 2)[j] == e[j]);
            assert(is_child_at(w, lp, j, e[j].0 as int));
        } else {
            assert(e.subrange(2, 5)[j - 2] == e[j]);
            assert(is_child_at(w, rp, j - 2, e[j].0 as int));
        }
    }
    assert(e[ins].0 == child);
    assert forall|q: int, k: int| 0 <= q < v.num_pages && is_internal(v.pages[q]) && 0 <= k <= num_keys(v.pages[q])
        implies attached(w, #[trigger] child_at(v.pages[q], k) as int) by {
        if q == pp {
            assert(child_at(a, k) == e0[k].0);
            if k < ins {
                assert(e[k] == e0[k]);
            } else {
                assert(e[k + 1] == e0[k]);
            }
        } else {
            assert(node_ok(v.pages, v.num_pages, q));
            assert(children_same(v.pages[q], w.pages[q]));
            assert(is_child_at(w, q, k, child_at(v.pages[q], k) as int));
        }
    }
}

impl Table {
    /// Splits full internal page `parent_page_num` to add child `child_page_num`. Its four
    /// children and the new one, with their largest keys, are listed in order, the new one
    /// before the first whose key is at or above its own; the first two go to the split page
    /// (to a new page when the split page is the root) and the other three to a new page on
    /// the first free page, and each child is pointed at its new parent. A split root is
    /// rebuilt as an internal root over the two halves; otherwise the grandparent's key for the
    /// split page is set to the split page's new largest key (the state `internal_split_mid`)
    /// and the new page is added to the grandparent (see `internal_insert_outcome`).
    #[verifier::spinoff_prover]
    #[verifier::rlimit(100)]
    pub fn internal_node_split_and_insert(&mut self, parent_page_num: usize, child_page_num: usize) -> (r: Result<(), TableError>)
        requires
            old(self).wf(),
            tree_usable(old(self)@),
            parent_page_num < old(self)@.num_pages,
            is_internal(old(self)@.pages[parent_page_num as int]),
            num_keys(old(self)@.pages[parent_page_num as int]) == INTERNAL_NODE_MAX_CELLS,
            0 < child_page_num < old(self)@.num_pages,
            child_page_num != parent_page_num,
        ensures
            final(self).wf(),
            internal_split_outcome(old(self)@, final(self)@, parent_page_num as int, child_page_num as int, r),
        decreases TABLE_MAX_PAGES - old(self)@.num_pages, 0nat,
    {
        let ghost v0 = self@;
        let ghost n0 = v0.num_pages;
        let ghost pp = parent_page_num as int;
        let ghost a = v0.pages[pp];
        proof {
            assert(node_ok(v0.pages, n0, pp));
            assert(node_ok(v0.pages, n0, child_page_num as int));
            lemma_pages_to_add_full(v0.pages, n0, pp);
            lemma_almost_wf_from_tree(v0);
            lemma_leaves_kept_refl(v0.pages, n0, v0);
            lemma_almost_wf_fault(v0, pp, Set::empty(), n0);
        }
        // find the parent of the node being split
        let old_node = match self.get_node_mut(parent_page_num) {
            Ok(n) => n,
            Err(e) => {
                return Err(e);
            },
        };
        let old_parent_page_num = old_node.get_node_parent();
        // its children with their keys
        let mut entries: Vec<(u32, u32)> = Vec::new();
        let nk = old_node.get_internal_node_num_keys() as usize;
        let mut i: usize = 0;
        while i < nk
            invariant
                old_node.wf(),
                old_node@ == a,
                is_internal(a),
                nk == num_keys(a) == INTERNAL_NODE_MAX_CELLS,
                i <= nk,
                forall|k: int| 0 <= k <= num_keys(a) ==> child_ok(n0, pp, #[trigger] child_at(a, k)),
                n0 <= TABLE_MAX_PAGES,
                entries@.len() == i,
                forall|t: int| 0 <= t < i ==> #[trigger] entries@[t] == (child_at(a, t), internal_key(a, t)),
            decreases nk - i,
        {
            let key = old_node.get_internal_node_key(i);
            proof {
                assert(child_ok(n0, pp, child_at(a, i as int)));
            }
            let child = match old_node.get_internal_node_child(i) {
                Ok(c) => c,
                Err(e) => {
                    return Err(e);
                },
            };
            entries.push((child, key));
            i = i + 1;
        }
        let right_child_page = old_node.get_internal_node_right_child();
        let ghost v1 = self@;
        proof {
            assert(child_ok(n0, pp, child_at(a, num_keys(a) as int)));
            assert(node_ok(v0.pages, n0, right_child_page as int));
            lemma_almost_wf_fault(v1, right_child_page as int, Set::empty(), n0);
        }
        let right_child_key = match self.get_node_mut(right_child_page as usize) {
            Ok(n) => n.get_node_max_key(),
            Err(e) => {
                return Err(e);
            },
        };
        entries.push((right_child_page, right_child_key));
        let ghost v2 = self@;
        proof {
            lemma_almost_wf_fault(v2, child_page_num as int, Set::empty(), n0);
        }
        let new_child_key = match self.get_node_mut(child_page_num) {
            Ok(n) => n.get_node_max_key(),
            Err(e) => {
                return Err(e);
            },
        };
        // the new child goes before the first entry whose key is at or above its own
        let ghost rk = right_child_key;
        let ghost ck = new_child_key;
        proof {
            assert(entries@ =~= old_entries(a, rk));
        }
        let mut insert_index: usize = entries.len();
        let mut found = false;
        let mut t: usize = 0;
        while t < entries.len()
            invariant
                entries@.len() == INTERNAL_NODE_MAX_CELLS + 1,
                t <= entries@.len(),
                insert_index <= entries@.len(),
                found ==> insert_index == first_at_least(entries@, new_child_key, 0),
                !found ==> insert_index == entries@.len()
                    && first_at_least(entries@, new_child_key, 0) == first_at_least(entries@, new_child_key, t as int),
            decreases entries@.len() - t,
        {
            if !found && entries[t].1 >= new_child_key {
                insert_index = t;
                found = true;
            }
            t = t + 1;
        }
        let ghost e0 = entries@;
        proof {
            assert forall|t: int| 0 <= t < e0.len() implies child_ok(n0, pp, #[trigger] e0[t].0) by {
                assert(child_ok(n0, pp, child_at(a, t)));
            }
        }
        entries.insert(insert_index, (child_page_num as u32, new_child_key));
        let splitting_root = old_node.is_root_node();
        proof {
            assert forall|t: int| 0 <= t < entries@.len() implies child_ok(n0, pp, #[trigger] entries@[t].0) by {
                if t < insert_index {
                    assert(entries@[t] == e0[t]);
                } else if t > insert_index {
                    assert(entries@[t] == e0[t - 1]);
                }
            }
        }
        // the first two entries stay left, the other three go to a new page
        let mut left_group: Vec<(u32, u32)> = Vec::new();
        let mut right_group: Vec<(u32, u32)> = Vec::new();
        let mut t: usize = 0;
        while t < entries.len()
            invariant
                entries@.len() == INTERNAL_NODE_MAX_CELLS + 2,
                t <= entries@.len(),
                forall|s: int| 0 <= s < entries@.len() ==> child_ok(n0, pp, #[trigger] entries@[s].0),
                t <= INTERNAL_NODE_LEFT_SPLIT_COUNT ==> left_group@.len() == t && right_group@.len() == 0,
                t > INTERNAL_NODE_LEFT_SPLIT_COUNT ==> left_group@.len() == INTERNAL_NODE_LEFT_SPLIT_COUNT
                    && right_group@.len() == t - INTERNAL_NODE_LEFT_SPLIT_COUNT,
                forall|s: int| 0 <= s < left_group@.len() ==> #[trigger] left_group@[s] == entries@[s],
                forall|s: int| 0 <= s < right_group@.len() ==> #[trigger] right_group@[s] == entries@[s + INTERNAL_NODE_LEFT_SPLIT_COUNT],
            decreases entries@.len() - t,
        {
            if t < INTERNAL_NODE_LEFT_SPLIT_COUNT {
                left_group.push(entries[t]);
            } else {
                right_group.push(entries[t]);
            }
            t = t + 1;
        }
        let old_max = left_group[INTERNAL_NODE_LEFT_SPLIT_COUNT - 1].1;
        proof {
            assert forall|s: int| 0 <= s < left_group@.len() implies child_ok(n0, pp, #[trigger] left_group@[s].0) by {
                assert(child_ok(n0, pp, entries@[s].0));
            }
            assert forall|s: int| 0 <= s < right_group@.len() implies child_ok(n0, pp, #[trigger] right_group@[s].0) by {
                assert(child_ok(n0, pp, entries@[s + INTERNAL_NODE_LEFT_SPLIT_COUNT].0));
            }
        }
        let ghost v3 = self@;
        let ghost pend0: Set<int> = set![n0 as int];
        // a new page holds the right group
        let new_page_num = self.get_unused_page_num();
        proof {
            if n0 < TABLE_MAX_PAGES {
                lemma_almost_wf_fresh(v3, Set::empty(), n0);
                assert(Set::<int>::empty().insert(n0 as int) =~= pend0);
            }
        }
        let mut new_node = match self.get_node_mut(new_page_num) {
            Ok(n) => n,
            Err(e) => {
                return Err(e);
            },
        };
        let ghost nb0 = new_node@;
        new_node.initialize_internal_node();
        new_node.write_entries(&right_group);
        let ghost nb = new_node@;
        let ghost v4 = self@;
        self.put_node(new_page_num, new_node);
        proof {
            lemma_almost_wf_write(v4, n0 as int, nb, pend0, pend0, n0);
            lemma_leaves_kept_write(v0.pages, n0, v4, self@, Set::empty(), n0 as int, nb);
        }
        // the left group goes to the split page, or to a new page when the root is split
        let left_dest_page_num = if splitting_root {
            self.get_unused_page_num()
        } else {
            parent_page_num
        };
        let ghost v5 = self@;
        let ghost n1: int = (n0 + 1) as int;
        let ghost pend: Set<int> = if splitting_root { set![n0 as int, n1] } else { pend0 };
        proof {
            if splitting_root {
                assert(pp == 0);
                if n1 < TABLE_MAX_PAGES {
                    lemma_almost_wf_fresh(v5, pend0, n0);
                    assert(pend0.insert(n1) =~= pend);
                }
            } else {
                lemma_almost_wf_fault(v5, pp, pend0, n0);
            }
        }
        let mut left_node = match self.get_node_mut(left_dest_page_num) {
            Ok(n) => n,
            Err(e) => {
                return Err(e);
            },
        };
        let ghost lb0 = left_node@;
        if splitting_root {
            left_node.initialize_internal_node();
        }
        left_node.write_entries(&left_group);
        let ghost lb = left_node@;
        let ghost v6 = self@;
        self.put_node(left_dest_page_num, left_node);
        let ghost lim: nat = if splitting_root { (n0 + 2) as nat } else { (n0 + 1) as nat };
        proof {
            if splitting_root {
                lemma_almost_wf_write(v6, n1, lb, pend, pend, n0);
                lemma_leaves_kept_write(v0.pages, n0, v6, self@, Set::empty(), n1, lb);
            } else {
                assert(lb0 == a);
                lemma_entries_kind(a, lb, left_group@);
                assert(node_ok(v6.pages.update(pp, lb), n0, pp)) by {
                    let pages2 = v6.pages.update(pp, lb);
                    if !root_flag(lb) {
                        assert(is_internal(pages2[parent_of(lb) as int]));
                    }
                    assert forall|k: int| 0 <= k <= num_keys(lb) implies child_ok(n0, pp, #[trigger] child_at(lb, k)) by {
                        assert(child_ok(n0, pp, left_group@[k].0));
                    }
                }
                lemma_almost_wf_write(v6, pp, lb, pend, pend, n0);
                lemma_leaves_kept_write(v0.pages, n0, v6, self@, Set::empty(), pp, lb);
            }
            lemma_almost_wf_raise(self@, pend, n0, lim);
            lemma_fresh_internal_fields(nb0, nb, right_group@, n0, pp, n0 as int, lim);
            if splitting_root {
                lemma_fresh_internal_fields(lb0, lb, left_group@, n0, pp, n1, lim);
            }
        }
        let ghost base: Seq<Seq<u8>> = if splitting_root { v0.pages } else { v0.pages.update(pp, lb) };
        proof {
            assert(v4.pages == v0.pages);
            assert forall|q: int| 0 <= q < n0 implies #[trigger] children_same(base[q], self@.pages[q]) by {
                assert(self@.pages[q] == base[q]);
            }
            assert forall|q: int| 0 <= q < n0 implies #[trigger] same_but_parent(base[q], self@.pages[q]) by {
                assert(self@.pages[q] == base[q]);
            }
            assert forall|q: int| 0 <= q < n0 implies #[trigger] self@.pages[q] == base[q] || is_split_child(entries@, q) by {
                assert(self@.pages[q] == base[q]);
            }
        }
        // point the right group at the new page
        let mut t: usize = 0;
        while t < right_group.len()
            invariant
                self.wf(),
                almost_wf(self@, pend, lim),
                lim == self@.num_pages,
                n0 < lim,
                pend.contains(n0 as int),
                forall|p: int| #[trigger] pend.contains(p) ==> p >= n0,
                new_page_num == n0,
                self@.pages[n0 as int] == nb,
                is_internal(nb),
                splitting_root ==> self@.pages[n1] == lb && self@.pages[pp] == a,
                !splitting_root ==> self@.pages[pp] == lb,
                leaves_kept(v0.pages, n0, self@, Set::empty()),
                n0 <= TABLE_MAX_PAGES,
                0 <= pp < n0,
                n1 == n0 + 1,
                splitting_root ==> n1 < lim,
                forall|s: int| 0 <= s < right_group@.len() ==> child_ok(n0, pp, #[trigger] right_group@[s].0),
                t <= right_group@.len(),
                forall|q: int| 0 <= q < n0 ==> #[trigger] children_same(base[q], self@.pages[q]),
                right_group@.len() == INTERNAL_NODE_RIGHT_SPLIT_COUNT,
                forall|q: int| 0 <= q < n0 ==> #[trigger] same_but_parent(base[q], self@.pages[q]),
                forall|s: int| 0 <= s < t ==> parent_of(self@.pages[#[trigger] right_group@[s].0 as int]) == n0,
                entries@.len() == 5,
                forall|s: int| 0 <= s < 3 ==> #[trigger] right_group@[s] == entries@[s + 2],
                forall|q: int| 0 <= q < n0 ==> #[trigger] self@.pages[q] == base[q] || is_split_child(entries@, q),
                forall|q: int| 0 <= q < n0 ==> parent_of(#[trigger] self@.pages[q]) == parent_of(base[q])
                    || parent_of(self@.pages[q]) == n0 || parent_of(self@.pages[q]) == left_dest_page_num,
            decreases right_group@.len() - t,
        {
            let child = right_group[t].0 as usize;
            let ghost w0 = self@;
            proof {
                assert(child_ok(n0, pp, right_group@[t as int].0));
                lemma_repoint_child(w0, pend, lim, child as int, n0 as u32, v0.pages, n0);
            }
            let mut node = match self.get_node_mut(child) {
                Ok(n) => n,
                Err(e) => {
                    return Err(e);
                },
            };
            node.set_node_parent(new_page_num as u32);
            self.put_node(child, node);
            proof {
                lemma_children_same_repoint(base, n0, w0.pages, child as int, new_page_num as u32);
                lemma_same_but_parent_repoint(base, n0, w0.pages, child as int, new_page_num as u32);
                lemma_parent_set(w0.pages[child as int], new_page_num as u32);
                assert forall|q: int| 0 <= q < n0 implies parent_of(#[trigger] self@.pages[q]) == parent_of(base[q])
                    || parent_of(self@.pages[q]) == n0 || parent_of(self@.pages[q]) == left_dest_page_num by {
                    if q != child as int {
                        assert(self@.pages[q] == w0.pages[q]);
                    }
                }
                assert(right_group@[t as int] == entries@[t + 2]);
                assert forall|q: int| 0 <= q < n0 implies #[trigger] self@.pages[q] == base[q] || is_split_child(entries@, q) by {
                    if q == child as int {
                        assert(entries@[t + 2].0 as int == q);
                    } else {
                        assert(self@.pages[q] == w0.pages[q]);
                    }
                }
                assert forall|s: int| 0 <= s < t + 1 implies parent_of(self@.pages[#[trigger] right_group@[s].0 as int]) == n0 by {
                    if right_group@[s].0 as int != child as int {
                        assert(self@.pages[right_group@[s].0 as int] == w0.pages[right_group@[s].0 as int]);
                    }
                }
            }
            t = t + 1;
        }
        // point the left group at its page
        let mut t: usize = 0;
        while t < left_group.len()
            invariant
                self.wf(),
                almost_wf(self@, pend, lim),
                lim == self@.num_pages,
                n0 < lim,
                pend.contains(n0 as int),
                forall|p: int| #[trigger] pend.contains(p) ==> p >= n0,
                new_page_num == n0,
                self@.pages[n0 as int] == nb,
                splitting_root ==> self@.pages[n1] == lb && self@.pages[pp] == a && left_dest_page_num == n1,
                !splitting_root ==> self@.pages[pp] == lb && left_dest_page_num == pp,
                is_internal(lb),
                left_dest_page_num < lim,
                leaves_kept(v0.pages, n0, self@, Set::empty()),
                n0 <= TABLE_MAX_PAGES,
                0 <= pp < n0,
                n1 == n0 + 1,
                splitting_root ==> n1 < lim,
                forall|s: int| 0 <= s < left_group@.len() ==> child_ok(n0, pp, #[trigger] left_group@[s].0),
                t <= left_group@.len(),
                forall|q: int| 0 <= q < n0 ==> #[trigger] children_same(base[q], self@.pages[q]),
                left_group@.len() == INTERNAL_NODE_LEFT_SPLIT_COUNT,
                right_group@.len() == INTERNAL_NODE_RIGHT_SPLIT_COUNT,
                forall|s: int| 0 <= s < right_group@.len() ==> child_ok(n0, pp, #[trigger] right_group@[s].0),
                forall|q: int| 0 <= q < n0 ==> #[trigger] same_but_parent(base[q], self@.pages[q]),
                forall|s: int| 0 <= s < t ==> parent_of(self@.pages[#[trigger] left_group@[s].0 as int]) == left_dest_page_num,
                entries@.len() == 5,
                forall|s: int| 0 <= s < 2 ==> #[trigger] left_group@[s] == entries@[s],
                forall|q: int| 0 <= q < n0 ==> #[trigger] self@.pages[q] == base[q] || is_split_child(entries@, q),
                forall|q: int| 0 <= q < n0 ==> parent_of(#[trigger] self@.pages[q]) == parent_of(base[q])
                    || parent_of(self@.pages[q]) == n0 || parent_of(self@.pages[q]) == left_dest_page_num,
                forall|s: int| 0 <= s < INTERNAL_NODE_RIGHT_SPLIT_COUNT && right_group@[s].0 != left_group@[0].0
                    && right_group@[s].0 != left_group@[1].0
                    ==> parent_of(self@.pages[#[trigger] right_group@[s].0 as int]) == n0,
            decreases left_group@.len() - t,
        {
            let child = left_group[t].0 as usize;
            let ghost w0 = self@;
            proof {
                assert(child_ok(n0, pp, left_group@[t as int].0));
                lemma_repoint_child(w0, pend, lim, child as int, left_dest_page_num as u32, v0.pages, n0);
            }
            let mut node = match self.get_node_mut(child) {
                Ok(n) => n,
                Err(e) => {
                    return Err(e);
                },
            };
            node.set_node_parent(left_dest_page_num as u32);
            self.put_node(child, node);
            proof {
                lemma_children_same_repoint(base, n0, w0.pages, child as int, left_dest_page_num as u32);
                lemma_same_but_parent_repoint(base, n0, w0.pages, child as int, left_dest_page_num as u32);
                lemma_parent_set(w0.pages[child as int], left_dest_page_num as u32);
                assert(self@.pages == w0.pages.update(child as int,
                    put_u32(w0.pages[child as int], PARENT_POINTER_OFFSET as int, left_dest_page_num as u32)));
                assert forall|q: int| 0 <= q < n0 implies parent_of(#[trigger] self@.pages[q]) == parent_of(base[q])
                    || parent_of(self@.pages[q]) == n0 || parent_of(self@.pages[q]) == left_dest_page_num by {
                    if q != child as int {
                        assert(self@.pages[q] == w0.pages[q]);
                    }
                }
                assert(left_group@[t as int] == entries@[t as int]);
                assert forall|q: int| 0 <= q < n0 implies #[trigger] self@.pages[q] == base[q] || is_split_child(entries@, q) by {
                    if q == child as int {
                        assert(entries@[t as int].0 as int == q);
                    } else {
                        assert(self@.pages[q] == w0.pages[q]);
                    }
                }
                assert forall|s: int| 0 <= s < t + 1 implies parent_of(self@.pages[#[trigger] left_group@[s].0 as int]) == left_dest_page_num by {
                    if left_group@[s].0 as int != child as int {
                        assert(self@.pages[left_group@[s].0 as int] == w0.pages[left_group@[s].0 as int]);
                    }
                }
                assert forall|s: int| 0 <= s < INTERNAL_NODE_RIGHT_SPLIT_COUNT && right_group@[s].0 != left_group@[0].0
                    && right_group@[s].0 != left_group@[1].0
                    implies parent_of(self@.pages[#[trigger] right_group@[s].0 as int]) == n0 by {
                    assert(t == 0 || t == 1);
                    assert(right_group@[s].0 != left_group@[t as int].0);
                    assert(right_group@[s].0 as int != child as int);
                    assert(child_ok(n0, pp, right_group@[s].0));
                    assert(self@.pages[right_group@[s].0 as int] == w0.pages[right_group@[s].0 as int]);
                }
            }
            t = t + 1;
        }
        if splitting_root {
            // rebuild the root over the two halves
            let ghost w0 = self@;
            proof {
                lemma_almost_wf_fault(w0, pp, pend, lim);
                assert(leaves_kept(v0.pages, n0, w0, Set::empty()));
            }
            let mut root = match self.get_node_mut(parent_page_num) {
                Ok(n) => n,
                Err(e) => {
                    return Err(e);
                },
            };
            root.initialize_internal_node();
            root.set_internal_node_num_keys(1);
            proof {
                crate::bytes::lemma_put_u32(init_internal(a), INTERNAL_NODE_NUM_KEYS_OFFSET as int, 1);
            }
            root.set_internal_node_child(0, left_dest_page_num);
            root.set_internal_node_key(0, old_max);
            root.set_internal_node_right_child(new_page_num);
            root.set_root_node(true);
            let ghost rb = root@;
            let ghost w1 = self@;
            self.put_node(parent_page_num, root);
            proof {
                lemma_new_root_bytes(a, rb, n1 as u32, n0 as u32, old_max);
                assert(node_ok(w1.pages.update(0, rb), lim, 0)) by {
                    assert(child_ok(lim, 0, child_at(rb, 0)));
                    assert(child_ok(lim, 0, child_at(rb, 1)));
                }
                lemma_almost_wf_write(w1, 0, rb, pend, pend, lim);
                assert(w1.pages == w0.pages);
                lemma_leaves_kept_same_pages(v0.pages, n0, w0, w1, Set::empty());
                lemma_leaves_kept_write(v0.pages, n0, w1, self@, Set::empty(), 0, rb);
            }
            let ghost w2 = self@;
            let mut left = match self.get_node_mut(left_dest_page_num) {
                Ok(n) => n,
                Err(e) => {
                    return Err(e);
                },
            };
            left.set_node_parent(parent_page_num as u32);
            self.put_node(left_dest_page_num, left);
            proof {
                lemma_set_parent_pending(w2, pend, lim, n1, 0);
                lemma_leaves_kept_write(v0.pages, n0, fault_in(w2, n1), self@, Set::empty(), n1, self@.pages[n1]);
            }
            let ghost w3 = self@;
            let ghost pend1 = pend.remove(n1);
            let mut right = match self.get_node_mut(new_page_num) {
                Ok(n) => n,
                Err(e) => {
                    return Err(e);
                },
            };
            right.set_node_parent(parent_page_num as u32);
            self.put_node(new_page_num, right);
            proof {
                lemma_set_parent_pending(w3, pend1, lim, n0 as int, 0);
                lemma_leaves_kept_write(v0.pages, n0, fault_in(w3, n0 as int), self@, Set::empty(), n0 as int, self@.pages[n0 as int]);
                assert(pend1.remove(n0 as int) =~= Set::<int>::empty());
                lemma_almost_wf_to_tree(self@, lim);
                // what the three pages hold
                let w = self@;
                let e = split_entries(a, rk, child_page_num as u32, ck);
                assert(entries@ == e);
                assert(left_group@ =~= e.subrange(0, 2));
                assert(right_group@ =~= e.subrange(2, 5));
                lemma_entries_hold(init_internal(lb0), lb, left_group@);
                lemma_entries_hold(init_internal(nb0), nb, right_group@);
                lemma_holds_entries_parent(lb, left_group@, 0);
                lemma_holds_entries_parent(nb, right_group@, 0);
                assert(w.pages[n1] == put_u32(lb, PARENT_POINTER_OFFSET as int, 0));
                assert(w.pages[n0 as int] == put_u32(nb, PARENT_POINTER_OFFSET as int, 0));
                assert(w.pages[0] == rb);
                assert(rk == max_key(v0.pages[right_child(a) as int]));
                assert(ck == max_key(v0.pages[child_page_num as int]));
                assert(children_point_at(w, e, n1, n0 as int)) by {
                    assert forall|j: int| 0 <= j < 2 implies #[trigger] parent_of(w.pages[e[j].0 as int]) == n1 by {
                        assert(left_group@[j] == e[j]);
                        assert(child_ok(n0, pp, left_group@[j].0));
                        assert(w.pages[e[j].0 as int] == w0.pages[e[j].0 as int]);
                    }
                    assert forall|j: int| 2 <= j < 5 && e[j].0 != e[0].0 && e[j].0 != e[1].0
                        implies #[trigger] parent_of(w.pages[e[j].0 as int]) == n0 by {
                        assert(right_group@[j - 2] == e[j]);
                        assert(left_group@[0] == e[0] && left_group@[1] == e[1]);
                        assert(child_ok(n0, pp, right_group@[j - 2].0));
                        assert(w.pages[e[j].0 as int] == w0.pages[e[j].0 as int]);
                    }
                }
                assert(children_kept(v0.pages, n0, w) && attached(w, child_page_num as int)) by {
                    assert forall|q: int| 0 <= q < n0 && q != pp implies #[trigger] children_same(v0.pages[q], w.pages[q]) by {
                        assert(w.pages[q] == w0.pages[q]);
                        assert(children_same(base[q], w0.pages[q]));
                    }
                    lemma_holds_children_of_entries(w.pages[n1], e.subrange(0, 2));
                    lemma_holds_children_of_entries(w.pages[n0 as int], e.subrange(2, 5));
                    lemma_split_keeps_children(v0, pp, rk, child_page_num as u32, ck, w, n1, n0 as int);
                }
            }
            Ok(())
        } else {
            // the grandparent's key for the split page becomes its new largest key
            let grandparent = old_parent_page_num as usize;
            let ghost w0 = self@;
            proof {
                assert(!root_flag(a));
                assert(w0.pages[pp] == lb);
                assert(lb[1] == a[1] && parent_of(lb) == parent_of(a));
                assert(node_ok(w0.pages, lim, pp));
                assert(grandparent < n0);
                assert(!pend.contains(grandparent as int));
                assert(node_ok(w0.pages, lim, grandparent as int));
                assert(is_internal(w0.pages[grandparent as int]));
                lemma_almost_wf_fault(w0, grandparent as int, pend, lim);
            }
            let mut parent = match self.get_node_mut(grandparent) {
                Ok(n) => n,
                Err(e) => {
                    return Err(e);
                },
            };
            let idx = parent.internal_node_find_child(right_child_key);
            parent.set_internal_node_key(idx, old_max);
            let ghost gb = parent@;
            let ghost w1 = self@;
            self.put_node(grandparent, parent);
            proof {
                lemma_key_write_node_ok(w1.pages, lim, grandparent as int, idx as int, old_max);
                lemma_almost_wf_write(w1, grandparent as int, gb, pend, pend, lim);
                lemma_leaves_kept_write(v0.pages, n0, w1, self@, Set::empty(), grandparent as int, gb);
            }
            // the new page hangs under the grandparent
            let ghost w2 = self@;
            let mut right = match self.get_node_mut(new_page_num) {
                Ok(n) => n,
                Err(e) => {
                    return Err(e);
                },
            };
            right.set_node_parent(old_parent_page_num);
            self.put_node(new_page_num, right);
            proof {
                lemma_set_parent_pending(w2, pend, lim, n0 as int, old_parent_page_num);
                lemma_leaves_kept_write(v0.pages, n0, fault_in(w2, n0 as int), self@, Set::empty(), n0 as int, self@.pages[n0 as int]);
                assert(pend.remove(n0 as int) =~= Set::<int>::empty());
                lemma_almost_wf_to_tree(self@, lim);
            }
            let ghost w3 = self@;
            proof {
                assert(children_kept(v0.pages, n0, w3) && attached(w3, child_page_num as int)) by {
                    let g = grandparent as int;
                    let e = split_entries(a, rk, child_page_num as u32, ck);
                    assert(w1.pages == w0.pages);
                    lemma_children_same_key(w0.pages[g], idx as int, old_max);
                    assert forall|q: int| 0 <= q < n0 implies #[trigger] children_same(base[q], w3.pages[q]) by {
                        assert(children_same(base[q], w0.pages[q]));
                        if q == g {
                            lemma_children_same_trans(base[q], w0.pages[q], w3.pages[q]);
                        } else {
                            assert(w3.pages[q] == w0.pages[q]);
                        }
                    }
                    assert forall|q: int| 0 <= q < n0 && q != pp implies #[trigger] children_same(v0.pages[q], w3.pages[q]) by {
                        assert(children_same(base[q], w3.pages[q]));
                        assert(base[q] == v0.pages[q]);
                    }
                    assert(entries@ == e);
                    assert(left_group@ =~= e.subrange(0, 2));
                    assert(right_group@ =~= e.subrange(2, 5));
                    lemma_entries_kind(a, lb, left_group@);
                    assert(holds_children(lb, e.subrange(0, 2)));
                    assert(children_same(base[pp], w3.pages[pp]));
                    lemma_holds_children_same(lb, w3.pages[pp], e.subrange(0, 2));
                    lemma_entries_kind(init_internal(nb0), nb, right_group@);
                    assert(holds_children(nb, e.subrange(2, 5)));
                    lemma_children_same_parent(nb, old_parent_page_num);
                    lemma_holds_children_same(nb, w3.pages[n0 as int], e.subrange(2, 5));
                    lemma_split_keeps_children(v0, pp, rk, child_page_num as u32, ck, w3, pp, n0 as int);
                }
            }
            proof {
                let g = grandparent as int;
                let e = split_entries(a, rk, child_page_num as u32, ck);
                assert(rk == max_key(v0.pages[right_child(a) as int]));
                assert(ck == max_key(v0.pages[child_page_num as int]));
                assert(w1.pages == w0.pages);
                assert(entries@ == e);
                assert(left_group@ =~= e.subrange(0, 2));
                assert(right_group@ =~= e.subrange(2, 5));
                assert(forall|jj: int| 0 <= jj < 5 ==> child_ok(n0, pp, #[trigger] e[jj].0)) by {
                    assert forall|jj: int| 0 <= jj < 5 implies child_ok(n0, pp, #[trigger] e[jj].0) by {
                        if jj < 2 {
                            assert(left_group@[jj] == e[jj]);
                        } else {
                            assert(right_group@[jj - 2] == e[jj]);
                        }
                    }
                }
                assert forall|q: int| 0 <= q < n0 && q != pp implies #[trigger] same_but_parent(v0.pages[q], w0.pages[q]) by {
                    assert(base[q] == v0.pages[q]);
                }
                assert forall|q: int| 0 <= q < n0 && q != pp implies #[trigger] w0.pages[q] == v0.pages[q] || is_split_child(e, q) by {
                    assert(base[q] == v0.pages[q]);
                }
                assert forall|jj: int| 0 <= jj < 2 implies #[trigger] parent_of(w0.pages[e[jj].0 as int]) == pp by {
                    assert(left_group@[jj] == e[jj]);
                }
                assert forall|jj: int| 2 <= jj < 5 && e[jj].0 != e[0].0 && e[jj].0 != e[1].0
                    implies #[trigger] parent_of(w0.pages[e[jj].0 as int]) == n0 by {
                    assert(right_group@[jj - 2] == e[jj]);
                    assert(left_group@[0] == e[0] && left_group@[1] == e[1]);
                }
                assert(nb0 == v0.pages[n0 as int]);
                lemma_internal_split_mid(v0, w0, w3, pp, child_page_num as u32, rk, ck, e, lb, nb, idx as int);
            }
            let r = self.internal_node_insert(grandparent, new_page_num);
            proof {
                if r is Err {
                    lemma_split_cost_step(v0.pages, n0, pp, w3.pages, w3.num_pages);
                }
                if r is Ok {
                    assert(internal_split_mid(v0, w3, pp, child_page_num as u32, rk, ck)
                        && internal_insert_outcome(w3, self@, grandparent as int, n0 as int, r));
                    lemma_leaves_kept_trans(v0.pages, n0, w3, w3.num_pages, self@, Set::empty());
                    lemma_children_kept_trans(v0.pages, n0, w3, self@);
                    lemma_attached_kept(w3, self@, child_page_num as int);
                }
            }
            r
        }
    }
}

/// Writing a key and a value into leaf cell `idx` makes that cell hold them, and changes no
/// other byte.
proof fn lemma_cell_write(p: Seq<u8>, b: Seq<u8>, idx: int, key: u32, value: Seq<u8>)
    requires
        p.len() == PAGE_SIZE,
        0 <= idx < LEAF_NODE_MAX_CELLS,
        value.len() == LEAF_NODE_VALUE_SIZE,
        b == put_bytes(put_u32(p, leaf_cell_offset(idx), key), leaf_cell_offset(idx) + LEAF_NODE_KEY_SIZE, value),
    ensures
        b.len() == PAGE_SIZE,
        leaf_cell(b, idx) == cell_bytes(key, value),
        forall|j: int| 0 <= j < PAGE_SIZE && !(leaf_cell_offset(idx) <= j < leaf_cell_offset(idx + 1)) ==> #[trigger] b[j] == p[j],
{
    crate::bytes::lemma_put_u32(p, leaf_cell_offset(idx), key);
    assert(leaf_cell(b, idx) =~= cell_bytes(key, value));
}

/// Copying the bytes of a cell into leaf cell `idx` makes that cell hold them, and changes no
/// other byte.
proof fn lemma_cell_copy(p: Seq<u8>, b: Seq<u8>, idx: int, cell: Seq<u8>)
    requires
        p.len() == PAGE_SIZE,
        0 <= idx < LEAF_NODE_MAX_CELLS,
        cell.len() == LEAF_NODE_CELL_SIZE,
        b == put_bytes(p, leaf_cell_offset(idx), cell),
    ensures
        b.len() == PAGE_SIZE,
        leaf_cell(b, idx) == cell,
        forall|j: int| 0 <= j < PAGE_SIZE && !(leaf_cell_offset(idx) <= j < leaf_cell_offset(idx + 1)) ==> #[trigger] b[j] == p[j],
{
    assert(leaf_cell(b, idx) =~= cell);
}

/// The header fields of a leaf whose cell bytes alone changed.
proof fn lemma_leaf_header_kept(a: Seq<u8>, b: Seq<u8>)
    requires
        a.len() == PAGE_SIZE,
        b.len() == PAGE_SIZE,
        forall|j: int| 0 <= j < LEAF_NODE_HEADER_SIZE ==> #[trigger] b[j] == a[j],
    ensures
        b[0] == a[0],
        b[1] == a[1],
        parent_of(b) == parent_of(a),
        leaf_num_cells(b) == leaf_num_cells(a),
        next_leaf(b) == next_leaf(a),
{
    assert(b[2] == a[2] && b[3] == a[3] && b[4] == a[4] && b[5] == a[5]);
    assert(b[6] == a[6] && b[7] == a[7] && b[8] == a[8] && b[9] == a[9]);
    assert(b[10] == a[10] && b[11] == a[11] && b[12] == a[12] && b[13] == a[13]);
}

impl Table {
    /// Splits full leaf `page_num` to insert the cell `key`, `row` at `cell_num`: the fourteen
    /// cells, in order, are divided between the split leaf (the first
    /// `LEAF_NODE_LEFT_SPLIT_COUNT`) and a new leaf on the first free page (the rest), which
    /// follows it in the leaf chain. A split root gets a new root above it; otherwise the
    /// parent's key for the split leaf is updated and the new leaf is added to the parent.
    #[verifier::spinoff_prover]
    #[verifier::rlimit(60)]
    pub fn leaf_node_split_and_insert(&mut self, page_num: usize, cell_num: usize, key: u32, row: &Row) -> (r: Result<(), TableError>)
        requires
            old(self).wf(),
            tree_usable(old(self)@),
            page_num < old(self)@.num_pages,
            is_leaf(old(self)@.pages[page_num as int]),
            leaf_num_cells(old(self)@.pages[page_num as int]) == LEAF_NODE_MAX_CELLS,
            cell_num <= LEAF_NODE_MAX_CELLS,
            row.wf(),
        ensures
            final(self).wf(),
            split_outcome(old(self)@.pages, old(self)@.num_pages, final(self)@, page_num as int, cell_num as int, cell_bytes(key, row.spec_bytes()), r),
    {
        let ghost v0 = self@;
        let ghost n0 = v0.num_pages;
        let ghost pg = page_num as int;
        let ghost a = v0.pages[pg];
        let ghost nc = cell_bytes(key, row.spec_bytes());
        let ghost m = merged_cells(a, cell_num as int, nc);
        proof {
            lemma_pages_to_split_leaf(v0.pages, n0, pg);
            assert(node_ok(v0.pages, n0, pg));
            lemma_almost_wf_from_tree(v0);
            lemma_almost_wf_fault(v0, pg, Set::empty(), n0);
        }
        let mut old_node = match self.get_node_mut(page_num) {
            Ok(n) => n,
            Err(e) => {
                return Err(e);
            },
        };
        let old_max = old_node.get_node_max_key();
        let old_parent = old_node.get_node_parent();
        let old_next = old_node.get_leaf_node_next_leaf();
        let new_page_num = self.get_unused_page_num();
        old_node.set_leaf_node_next_leaf(new_page_num as u32);
        let ghost a1 = old_node@;
        let ghost u1 = self@;
        // the split leaf now links to the page that is to become the new leaf
        let linked = Node::from_page(copy_out(&old_node.page, 0, PAGE_SIZE));
        proof {
            assert(linked@ =~= a1);
        }
        self.put_node(page_num, linked);
        let ghost pend: Set<int> = set![pg, n0 as int];
        proof {
            crate::bytes::lemma_put_u32(a, LEAF_NODE_NEXT_LEAF_OFFSET as int, new_page_num as u32);
            assert(a1[2] == a[2] && a1[3] == a[3] && a1[4] == a[4] && a1[5] == a[5]);
            assert(parent_of(a1) == parent_of(a));
            lemma_almost_wf_write(u1, pg, a1, Set::empty(), set![pg], n0);
            if n0 < TABLE_MAX_PAGES {
                lemma_almost_wf_fresh(self@, set![pg], n0);
                assert(set![pg].insert(n0 as int) =~= pend);
            }
        }
        let mut new_node = match self.get_node_mut(new_page_num) {
            Ok(n) => n,
            Err(e) => {
                return Err(e);
            },
        };
        let ghost nb0 = new_node@;
        new_node.initialize_leaf_node();
        new_node.set_node_parent(old_parent);
        new_node.set_leaf_node_next_leaf(old_next);
        let ghost nb1 = new_node@;
        proof {
            lemma_init_leaf_fields(nb0);
            let i0 = init_leaf(nb0);
            let i1 = put_u32(i0, PARENT_POINTER_OFFSET as int, old_parent);
            crate::bytes::lemma_put_u32(i0, PARENT_POINTER_OFFSET as int, old_parent);
            crate::bytes::lemma_put_u32(i1, LEAF_NODE_NEXT_LEAF_OFFSET as int, old_next);
            assert(nb1[2] == i1[2] && nb1[3] == i1[3] && nb1[4] == i1[4] && nb1[5] == i1[5]);
            assert(parent_of(nb1) == old_parent);
            assert(is_leaf(nb1));
            assert(nb1[1] == 0);
            assert(is_leaf(a1));
        }
        let value = row.serialize_row();
        let mut i: usize = LEAF_NODE_MAX_CELLS + 1;
        while i > 0
            invariant
                old_node.wf(),
                new_node.wf(),
                is_leaf(old_node@),
                is_leaf(new_node@),
                a.len() == PAGE_SIZE,
                a1.len() == PAGE_SIZE,
                nb1.len() == PAGE_SIZE,
                value@ == row.spec_bytes(),
                value@.len() == LEAF_NODE_VALUE_SIZE,
                nc == cell_bytes(key, row.spec_bytes()),
                m == merged_cells(a, cell_num as int, nc),
                cell_num <= LEAF_NODE_MAX_CELLS,
                i <= LEAF_NODE_MAX_CELLS + 1,
                forall|k: int| 0 <= k < LEAF_NODE_MAX_CELLS ==> #[trigger] leaf_cell(a1, k) == leaf_cell(a, k),
                forall|j: int| 0 <= j < PAGE_SIZE && !(leaf_cell_offset(if i < 7 { i as int } else { 7 }) <= j < leaf_cell_offset(7))
                    ==> #[trigger] old_node@[j] == a1[j],
                forall|k: int| i <= k < 7 ==> #[trigger] leaf_cell(old_node@, k) == m[k],
                forall|j: int| 0 <= j < PAGE_SIZE && !(leaf_cell_offset(if i < 7 { 0 } else { i - 7 }) <= j < leaf_cell_offset(7))
                    ==> #[trigger] new_node@[j] == nb1[j],
                forall|k: int| (if i < 7 { 7 } else { i as int }) <= k < 14 ==> #[trigger] leaf_cell(new_node@, k - 7) == m[k],
            decreases i,
        {
            i = i - 1;
            let index_within_node = i % LEAF_NODE_LEFT_SPLIT_COUNT;
            let dest_is_new = i >= LEAF_NODE_LEFT_SPLIT_COUNT;
            let ghost o0 = old_node@;
            let ghost w0 = new_node@;
            if i == cell_num {
                if dest_is_new {
                    new_node.set_leaf_node_key(index_within_node, key);
                    new_node.set_leaf_node_value(index_within_node, value.as_slice());
                    proof {
                        lemma_cell_write(w0, new_node@, index_within_node as int, key, value@);
                    }
                } else {
                    old_node.set_leaf_node_key(index_within_node, key);
                    old_node.set_leaf_node_value(index_within_node, value.as_slice());
                    proof {
                        lemma_cell_write(o0, old_node@, index_within_node as int, key, value@);
                    }
                }
            } else {
                let src_index = if i > cell_num { i - 1 } else { i };
                proof {
                    assert(leaf_cell(o0, src_index as int) =~= leaf_cell(a1, src_index as int));
                }
                if dest_is_new {
                    new_node.copy_cell_from(index_within_node, &old_node, src_index);
                    proof {
                        lemma_cell_copy(w0, new_node@, index_within_node as int, leaf_cell(o0, src_index as int));
                    }
                } else {
                    old_node.copy_leaf_cell(src_index, index_within_node);
                    proof {
                        lemma_cell_copy(o0, old_node@, index_within_node as int, leaf_cell(o0, src_index as int));
                    }
                }
            }
            proof {
                assert forall|k: int| i <= k < 7 implies #[trigger] leaf_cell(old_node@, k) == m[k] by {
                    if k != i {
                        assert(leaf_cell(old_node@, k) =~= leaf_cell(o0, k));
                    }
                }
                assert forall|k: int| (if i < 7 { 7 } else { i as int }) <= k < 14 implies #[trigger] leaf_cell(new_node@, k - 7) == m[k] by {
                    if k != i {
                        assert(leaf_cell(new_node@, k - 7) =~= leaf_cell(w0, k - 7));
                    }
                }
            }
        }
        let ghost ob = old_node@;
        let ghost nbb = new_node@;
        old_node.set_leaf_node_num_cells(LEAF_NODE_LEFT_SPLIT_COUNT as u32);
        new_node.set_leaf_node_num_cells(LEAF_NODE_RIGHT_SPLIT_COUNT as u32);
        let ghost ob2 = old_node@;
        let ghost nb2 = new_node@;
        proof {
            lemma_leaf_header_kept(a1, ob);
            lemma_leaf_header_kept(nb1, nbb);
            lemma_leaf_count_set(ob, LEAF_NODE_LEFT_SPLIT_COUNT as u32);
            lemma_leaf_count_set(nbb, LEAF_NODE_RIGHT_SPLIT_COUNT as u32);
            assert forall|k: int| 0 <= k < LEAF_NODE_LEFT_SPLIT_COUNT implies #[trigger] leaf_cell(ob2, k) == m[k] by {
                assert(leaf_cell(ob, k) == m[k]);
            }
            assert forall|k: int| 0 <= k < LEAF_NODE_RIGHT_SPLIT_COUNT implies #[trigger] leaf_cell(nb2, k) == m[k + LEAF_NODE_LEFT_SPLIT_COUNT] by {
                assert(leaf_cell(nbb, (k + 7) - 7) == m[k + 7]);
            }
        }
        let splitting_root = old_node.is_root_node();
        let parent_page_num = old_node.get_node_parent() as usize;
        let new_max = old_node.get_node_max_key();
        let ghost u2 = self@;
        self.put_node(page_num, old_node);
        let ghost u3 = self@;
        self.put_node(new_page_num, new_node);
        let ghost lim: nat = (n0 + 1) as nat;
        let ghost s1 = self@;
        proof {
            lemma_almost_wf_write(u2, pg, ob2, pend, pend, n0);
            lemma_almost_wf_write(u3, n0 as int, nb2, pend, pend, n0);
            lemma_almost_wf_raise(s1, pend, n0, lim);
            assert(s1.pages == v0.pages.update(pg, ob2).update(n0 as int, nb2));
            assert(node_ok(s1.pages, lim, pg)) by {
                if !root_flag(ob2) {
                    assert(is_internal(s1.pages[parent_of(ob2) as int]));
                }
                assert(is_leaf(s1.pages[n0 as int]));
            }
            lemma_almost_wf_settle(s1, pend, pg, lim);
            assert(pend.remove(pg) =~= set![n0 as int]);
            // the new leaf's next leaf is still a leaf
            if next_leaf(nb2) != 0 {
                assert(is_leaf(v0.pages[next_leaf(a) as int]));
                assert(is_leaf(s1.pages[next_leaf(nb2) as int]));
            }
        }
        if splitting_root {
            proof {
                assert(pg == 0);
                assert(root_split_pending(s1, n0 as int)) by {
                    assert forall|q: int| 0 <= q < s1.num_pages && q != n0 implies #[trigger] node_ok(s1.pages, s1.num_pages, q) by {
                        assert(!set![n0 as int].contains(q));
                    }
                }
            }
            let r = self.create_new_root(new_page_num);
            proof {
                if r is Ok {
                    let w = self@;
                    let left = (n0 + 1) as int;
                    let right = n0 as int;
                    lemma_root_copy_leaf(ob2);
                    assert(!set![0int].contains(right));
                    assert(same_but_parent(s1.pages[right], w.pages[right]));
                    lemma_same_but_parent_leaf(nb2, w.pages[right]);
                    assert forall|k: int| 0 <= k < LEAF_NODE_LEFT_SPLIT_COUNT implies #[trigger] leaf_cell(w.pages[left], k) == m[k] by {
                        assert(leaf_cell(ob2, k) == m[k]);
                    }
                    assert forall|k: int| 0 <= k < LEAF_NODE_RIGHT_SPLIT_COUNT implies #[trigger] leaf_cell(w.pages[right], k) == m[k + LEAF_NODE_LEFT_SPLIT_COUNT] by {
                        assert(leaf_cell(nb2, k) == m[k + LEAF_NODE_LEFT_SPLIT_COUNT]);
                    }
                    assert forall|q: int| 0 <= q < n0 && is_leaf(v0.pages[q]) && !set![pg].contains(q) implies
                        #[trigger] same_but_parent(v0.pages[q], w.pages[q]) && is_leaf(w.pages[q]) by {
                        assert(s1.pages[q] == v0.pages[q]);
                        assert(!set![0int].contains(q));
                        assert(is_leaf(s1.pages[q]) && q < s1.num_pages);
                        assert(same_but_parent(s1.pages[q], w.pages[q]));
                    }
                    assert forall|q: int, k: int| 0 <= q < n0 && is_internal(v0.pages[q]) && 0 <= k <= num_keys(v0.pages[q])
                        implies attached(s1, #[trigger] child_at(v0.pages[q], k) as int) by {
                        assert(s1.pages[q] == v0.pages[q]);
                        assert(is_child_at(s1, q, k, child_at(v0.pages[q], k) as int));
                    }
                    lemma_children_kept_trans(v0.pages, n0, s1, w);
                }
            }
            r
        } else {
            let ghost g = parent_page_num as int;
            proof {
                assert(node_ok(s1.pages, lim, n0 as int));
                lemma_almost_wf_settle(s1, set![n0 as int], n0 as int, lim);
                assert(set![n0 as int].remove(n0 as int) =~= Set::<int>::empty());
                lemma_almost_wf_to_tree(s1, lim);
                assert(is_internal(v0.pages[g]));
                assert(g != pg);
                assert(s1.pages[g] == v0.pages[g]);
                assert(node_ok(s1.pages, s1.num_pages, g));
                lemma_fault_in_tree_usable(s1, g);
            }
            // the grandparent's key for the split leaf becomes its new largest key
            let mut parent = match self.get_node_mut(parent_page_num) {
                Ok(n) => n,
                Err(e) => {
                    return Err(e);
                },
            };
            let old_index = parent.internal_node_find_child(old_max);
            parent.set_internal_node_key(old_index, new_max);
            let ghost gb = parent@;
            let ghost s1f = self@;
            self.put_node(parent_page_num, parent);
            let ghost s2 = self@;
            proof {
                lemma_key_write_node_ok(s1f.pages, s1f.num_pages, g, old_index as int, new_max);
                assert(s2.pages == s1f.pages.update(g, gb));
                assert forall|q: int| 0 <= q < s2.num_pages && !page_kept(s1f, s2, q) implies #[trigger] node_ok(s2.pages, s2.num_pages, q) by {
                    assert(q == g);
                }
                lemma_tree_usable_frame_from(s1f, s2);
            }
            let r = self.internal_node_insert(parent_page_num, new_page_num);
            proof {
                if r is Err {
                    lemma_key_write_fields(s1f.pages[g], old_index as int, new_max);
                    assert forall|x: int| 0 <= x < n0 implies #[trigger] page_cost_kept(s2.pages, s2.num_pages, v0.pages, x) by {
                        if x == pg {
                            assert(ob2[1] == a[1]);
                            assert(parent_of(ob2) == parent_of(a));
                            assert(num_keys(ob2) == leaf_num_cells(ob2));
                            assert(num_keys(a) == leaf_num_cells(a));
                        } else if x != g {
                            assert(s2.pages[x] == v0.pages[x]);
                        }
                    }
                    lemma_leaf_split_cost_step(v0.pages, n0, pg, s2.pages, s2.num_pages);
                }
                if r is Ok {
                    let w = self@;
                    assert(leaf_split_mid(v0.pages, n0, s2, pg, cell_num as int, nc)) by {
                        assert(is_lower_bound(v0.pages[g], old_max, old_index as int));
                        assert(ob2[1] == a[1]);
                        assert(nb2[1] == 0);
                        assert forall|i: int| 0 <= i < LEAF_NODE_LEFT_SPLIT_COUNT implies #[trigger] leaf_cell(s2.pages[pg], i) == m[i] by {
                            assert(leaf_cell(ob2, i) == m[i]);
                        }
                    }
                    assert(!Set::<int>::empty().contains(pg));
                    assert(!Set::<int>::empty().contains(n0 as int));
                    assert(s2.pages[pg] == ob2);
                    assert(s2.pages[n0 as int] == nb2);
                    assert(same_but_parent(s2.pages[pg], w.pages[pg]));
                    assert(same_but_parent(s2.pages[n0 as int], w.pages[n0 as int]));
                    lemma_same_but_parent_leaf(ob2, w.pages[pg]);
                    lemma_same_but_parent_leaf(nb2, w.pages[n0 as int]);
                    assert forall|k: int| 0 <= k < LEAF_NODE_LEFT_SPLIT_COUNT implies #[trigger] leaf_cell(w.pages[pg], k) == m[k] by {
                        assert(leaf_cell(ob2, k) == m[k]);
                    }
                    assert forall|k: int| 0 <= k < LEAF_NODE_RIGHT_SPLIT_COUNT implies #[trigger] leaf_cell(w.pages[n0 as int], k) == m[k + LEAF_NODE_LEFT_SPLIT_COUNT] by {
                        assert(leaf_cell(nb2, k) == m[k + LEAF_NODE_LEFT_SPLIT_COUNT]);
                    }
                    assert forall|q: int| 0 <= q < n0 && is_leaf(v0.pages[q]) && !set![pg].contains(q) implies
                        #[trigger] same_but_parent(v0.pages[q], w.pages[q]) && is_leaf(w.pages[q]) by {
                        assert(q != g);
                        assert(s2.pages[q] == v0.pages[q]);
                        assert(!Set::<int>::empty().contains(q));
                        assert(is_leaf(s2.pages[q]) && q < s2.num_pages);
                        assert(same_but_parent(s2.pages[q], w.pages[q]));
                    }
                    assert forall|q: int| 0 <= q < n0 implies #[trigger] children_same(v0.pages[q], s2.pages[q]) by {
                        if q == g {
                            lemma_children_same_key(v0.pages[g], old_index as int, new_max);
                        } else if q != pg {
                            assert(s2.pages[q] == v0.pages[q]);
                        }
                    }
                    assert forall|q: int| 0 <= q < n0 && is_internal(v0.pages[q]) implies num_keys(v0.pages[q]) <= INTERNAL_NODE_MAX_CELLS by {
                        assert(node_ok(v0.pages, n0, q));
                    }
                    lemma_children_kept_same(v0.pages, n0, s2);
                    lemma_children_kept_trans(v0.pages, n0, s2, w);
                }
            }
            r
        }
    }
}

/// Setting the cell count of a leaf changes nothing else.
proof fn lemma_leaf_count_set(p: Seq<u8>, c: u32)
    requires
        p.len() == PAGE_SIZE,
    ensures
        ({
            let b = put_u32(p, LEAF_NODE_NUM_CELLS_OFFSET as int, c);
            &&& b.len() == PAGE_SIZE
            &&& b[0] == p[0] && b[1] == p[1]
            &&& parent_of(b) == parent_of(p)
            &&& leaf_num_cells(b) == c
            &&& next_leaf(b) == next_leaf(p)
            &&& forall|i: int| 0 <= i < LEAF_NODE_MAX_CELLS ==> #[trigger] leaf_cell(b, i) == leaf_cell(p, i)
        }),
{
    let b = put_u32(p, LEAF_NODE_NUM_CELLS_OFFSET as int, c);
    crate::bytes::lemma_put_u32(p, LEAF_NODE_NUM_CELLS_OFFSET as int, c);
    assert(b[2] == p[2] && b[3] == p[3] && b[4] == p[4] && b[5] == p[5]);
    assert(b[10] == p[10] && b[11] == p[11] && b[12] == p[12] && b[13] == p[13]);
    assert forall|i: int| 0 <= i < LEAF_NODE_MAX_CELLS implies #[trigger] leaf_cell(b, i) == leaf_cell(p, i) by {
        assert(leaf_cell(b, i) =~= leaf_cell(p, i));
    }
}

/// The copy of a root page that a new root is built over keeps the leaf fields.
proof fn lemma_root_copy_leaf(p: Seq<u8>)
    requires
        p.len() == PAGE_SIZE,
    ensures
        ({
            let b = put_u32(p.update(1, 0u8), PARENT_POINTER_OFFSET as int, 0);
            &&& b[0] == p[0]
            &&& leaf_num_cells(b) == leaf_num_cells(p)
            &&& next_leaf(b) == next_leaf(p)
            &&& forall|i: int| 0 <= i < LEAF_NODE_MAX_CELLS ==> #[trigger] leaf_cell(b, i) == leaf_cell(p, i)
        }),
{
    let q = p.update(1, 0u8);
    let b = put_u32(q, PARENT_POINTER_OFFSET as int, 0);
    crate::bytes::lemma_put_u32(q, PARENT_POINTER_OFFSET as int, 0);
    assert(b[6] == p[6] && b[7] == p[7] && b[8] == p[8] && b[9] == p[9]);
    assert(b[10] == p[10] && b[11] == p[11] && b[12] == p[12] && b[13] == p[13]);
    assert forall|i: int| 0 <= i < LEAF_NODE_MAX_CELLS implies #[trigger] leaf_cell(b, i) == leaf_cell(p, i) by {
        assert(leaf_cell(b, i) =~= leaf_cell(p, i));
    }
}

/// The fields of a page just initialized as a leaf.
proof fn lemma_init_leaf_fields(p: Seq<u8>)
    requires
        p.len() == PAGE_SIZE,
    ensures
        init_leaf(p).len() == PAGE_SIZE,
        is_leaf(init_leaf(p)),
        init_leaf(p)[1] == 0,
        parent_of(init_leaf(p)) == parent_of(p),
        leaf_num_cells(init_leaf(p)) == 0,
        next_leaf(init_leaf(p)) == 0,
{
    let s0 = p.update(0, 1u8).update(1, 0u8);
    let s1 = put_u32(s0, LEAF_NODE_NUM_CELLS_OFFSET as int, 0);
    crate::bytes::lemma_put_u32(s0, LEAF_NODE_NUM_CELLS_OFFSET as int, 0);
    crate::bytes::lemma_put_u32(s1, LEAF_NODE_NEXT_LEAF_OFFSET as int, 0);
    assert(parent_of(init_leaf(p)) == parent_of(p));
    assert(leaf_num_cells(init_leaf(p)) == 0);
}

// ---------------------------------------------------------------------------
// Printing the tree.

/// One line of the printed tree, with its indentation level.
#[derive(Debug, Clone, Copy, PartialEq, Eq, Structural)]
pub enum TreeLine {
    /// `- leaf (size N)`
    Leaf { level: usize, size: u32 },
    /// `- K`: a key of a leaf
    Cell { level: usize, key: u32 },
    /// `- internal (size N)`
    Internal { level: usize, size: u32 },
    /// `- key K`: a key of an internal node, after the child it bounds
    Key { level: usize, key: u32 },
}

/// The lines that print the subtree of page `page` at indentation `level`, descending through
/// at most `fuel` internal pages: a leaf gives its header and one line per key, one level
/// deeper; an internal page gives its header and then, if it has keys, each cell child's
/// subtree followed by the cell's key, and the right child's subtree last. `None` when the
/// descent runs out of fuel.
pub open spec fn tree_lines(pages: Seq<Seq<u8>>, page: int, level: nat, fuel: nat) -> Option<Seq<TreeLine>>
    decreases fuel, num_keys(pages[page]) + 1,
{
    let p = pages[page];
    if is_leaf(p) {
        Some(seq![TreeLine::Leaf { level: level as usize, size: leaf_num_cells(p) }]
            + Seq::new(leaf_num_cells(p) as nat, |i: int| TreeLine::Cell { level: (level + 1) as usize, key: leaf_key(p, i) }))
    } else if fuel == 0 {
        None
    } else if num_keys(p) == 0 {
        Some(seq![TreeLine::Internal { level: level as usize, size: num_keys(p) }])
    } else {
        match children_lines(pages, page, level, fuel, num_keys(p) as nat) {
            Some(a) => match tree_lines(pages, right_child(p) as int, level + 1, (fuel - 1) as nat) {
                Some(b) => Some(seq![TreeLine::Internal { level: level as usize, size: num_keys(p) }] + a + b),
                None => None,
            },
            None => None,
        }
    }
}

/// The lines for the first `i` cells of internal page `page` at indentation `level`: each
/// cell child's subtree, one level deeper, followed by the cell's key.
pub open spec fn children_lines(pages: Seq<Seq<u8>>, page: int, level: nat, fuel: nat, i: nat) -> Option<Seq<TreeLine>>
    decreases fuel, i,
{
    if i == 0 {
        Some(Seq::empty())
    } else if fuel == 0 {
        None
    } else {
        let p = pages[page];
        match children_lines(pages, page, level, fuel, (i - 1) as nat) {
            Some(a) => match tree_lines(pages, cell_child(p, i - 1) as int, level + 1, (fuel - 1) as nat) {
                Some(b) => Some(a + b + seq![TreeLine::Key { level: (level + 1) as usize, key: internal_key(p, i - 1) }]),
                None => None,
            },
            None => None,
        }
    }
}

impl Table {
    /// The lines that print the subtree of page `page_num` (see `tree_lines`), descending
    /// through at most `fuel` internal pages.
    fn print_tree_within(&mut self, page_num: usize, indentation_level: usize, fuel: usize) -> (r: Result<Vec<TreeLine>, TableError>)
        requires
            old(self).wf(),
            tree_usable(old(self)@),
            page_num < old(self)@.num_pages,
            indentation_level + fuel + 2 <= usize::MAX,
        ensures
            final(self).wf(),
            tree_usable(final(self)@),
            same_tree(old(self)@, final(self)@),
            r matches Ok(lines) ==> tree_lines(old(self)@.pages, page_num as int, indentation_level as nat, fuel as nat) == Some(lines@),
            r matches Err(e) ==> tree_lines(old(self)@.pages, page_num as int, indentation_level as nat, fuel as nat) is None
                && e matches TableError::NodeNotFound(_),
        decreases fuel,
    {
        let ghost v0 = self@;
        let ghost pg = v0.pages[page_num as int];
        proof {
            assert(node_ok(v0.pages, v0.num_pages, page_num as int));
        }
        let node = match self.get_node_mut(page_num) {
            Ok(n) => n,
            Err(e) => {
                return Err(e);
            },
        };
        proof {
            crate::cursor::lemma_same_tree_usable(v0, self@);
        }
        let mut lines: Vec<TreeLine> = Vec::new();
        match node.get_node_type() {
            NodeKind::Leaf => {
                let num_keys = node.leaf_node_num_cells();
                lines.push(TreeLine::Leaf { level: indentation_level, size: num_keys });
                let mut i: u32 = 0;
                while i < num_keys
                    invariant
                        node.wf(),
                        node@ == pg,
                        is_leaf(pg),
                        num_keys == leaf_num_cells(pg) <= LEAF_NODE_MAX_CELLS,
                        i <= num_keys,
                        indentation_level + fuel + 2 <= usize::MAX,
                        lines@ == seq![TreeLine::Leaf { level: indentation_level, size: num_keys }]
                            + Seq::new(i as nat, |k: int| TreeLine::Cell { level: (indentation_level + 1) as usize, key: leaf_key(pg, k) }),
                    decreases num_keys - i,
                {
                    let key = node.get_leaf_node_key(i as usize);
                    lines.push(TreeLine::Cell { level: indentation_level + 1, key });
                    i = i + 1;
                    proof {
                        assert(lines@ =~= seq![TreeLine::Leaf { level: indentation_level, size: num_keys }]
                            + Seq::new(i as nat, |k: int| TreeLine::Cell { level: (indentation_level + 1) as usize, key: leaf_key(pg, k) }));
                    }
                }
                Ok(lines)
            },
            NodeKind::Internal => {
                if fuel == 0 {
                    return Err(TableError::NodeNotFound(page_num));
                }
                let num_keys = node.get_internal_node_num_keys();
                lines.push(TreeLine::Internal { level: indentation_level, size: num_keys });
                if num_keys > 0 {
                    let right_child_page = node.get_internal_node_right_child();
                    let mut i: u32 = 0;
                    while i < num_keys
                        invariant
                            self.wf(),
                            tree_usable(self@),
                            same_tree(v0, self@),
                            v0 == old(self)@,
                            tree_usable(v0),
                            node.wf(),
                            node@ == pg,
                            pg == v0.pages[page_num as int],
                            page_num < v0.num_pages,
                            is_internal(pg),
                            num_keys == crate::node::num_keys(pg),
                            1 <= num_keys <= INTERNAL_NODE_MAX_CELLS,
                            0 < fuel,
                            i <= num_keys,
                            indentation_level + fuel + 2 <= usize::MAX,
                            children_lines(v0.pages, page_num as int, indentation_level as nat, fuel as nat, i as nat) is Some,
                            lines@ == seq![TreeLine::Internal { level: indentation_level, size: num_keys }]
                                + children_lines(v0.pages, page_num as int, indentation_level as nat, fuel as nat, i as nat)->Some_0,
                        decreases num_keys - i,
                    {
                        proof {
                            assert(node_ok(v0.pages, v0.num_pages, page_num as int));
                            assert(child_ok(v0.num_pages, page_num as int, child_at(pg, i as int)));
                        }
                        let child = match node.get_internal_node_child(i as usize) {
                            Ok(c) => c,
                            Err(e) => {
                                return Err(e);
                            },
                        };
                        let mut sub = match self.print_tree_within(child as usize, indentation_level + 1, fuel - 1) {
                            Ok(s) => s,
                            Err(e) => {
                                proof {
                                    assert(children_lines(v0.pages, page_num as int, indentation_level as nat, fuel as nat, (i + 1) as nat) is None);
                                    lemma_children_lines_none(v0.pages, page_num as int, indentation_level as nat, fuel as nat, (i + 1) as nat, num_keys as nat);
                                }
                                return Err(e);
                            },
                        };
                        let ghost s = sub@;
                        let ghost prev = lines@;
                        lines.append(&mut sub);
                        let key = node.get_internal_node_key(i as usize);
                        lines.push(TreeLine::Key { level: indentation_level + 1, key });
                        i = i + 1;
                        proof {
                            let a = children_lines(v0.pages, page_num as int, indentation_level as nat, fuel as nat, (i - 1) as nat)->Some_0;
                            assert(children_lines(v0.pages, page_num as int, indentation_level as nat, fuel as nat, i as nat)
                                == Some(a + s + seq![TreeLine::Key { level: (indentation_level + 1) as usize, key: internal_key(pg, i - 1) }]));
                            assert(lines@ =~= seq![TreeLine::Internal { level: indentation_level, size: num_keys }]
                                + children_lines(v0.pages, page_num as int, indentation_level as nat, fuel as nat, i as nat)->Some_0);
                        }
                    }
                    proof {
                        assert(node_ok(v0.pages, v0.num_pages, page_num as int));
                        assert(child_ok(v0.num_pages, page_num as int, child_at(pg, num_keys as int)));
                    }
                    let mut sub = match self.print_tree_within(right_child_page as usize, indentation_level + 1, fuel - 1) {
                        Ok(s) => s,
                        Err(e) => {
                            return Err(e);
                        },
                    };
                    let ghost s = sub@;
                    lines.append(&mut sub);
                    proof {
                        let a = children_lines(v0.pages, page_num as int, indentation_level as nat, fuel as nat, num_keys as nat)->Some_0;
                        assert(lines@ =~= seq![TreeLine::Internal { level: indentation_level, size: num_keys }] + a + s);
                    }
                }
                Ok(lines)
            },
        }
    }
}

/// Once the lines of the first `j` cells fail, those of more cells fail too.
proof fn lemma_children_lines_none(pages: Seq<Seq<u8>>, page: int, level: nat, fuel: nat, j: nat, n: nat)
    requires
        children_lines(pages, page, level, fuel, j) is None,
        j <= n,
    ensures
        children_lines(pages, page, level, fuel, n) is None,
    decreases n - j,
{
    if j < n {
        lemma_children_lines_none(pages, page, level, fuel, j, (n - 1) as nat);
    }
}

impl Table {
    /// The lines that print the subtree of page `page_num` at indentation
    /// `indentation_level` (see `tree_lines`); the descent gives up after `TABLE_MAX_PAGES`
    /// internal pages.
    pub fn print_tree(&mut self, page_num: usize, indentation_level: usize) -> (r: Result<Vec<TreeLine>, TableError>)
        requires
            old(self).wf(),
            tree_usable(old(self)@),
            page_num < old(self)@.num_pages,
            indentation_level + TABLE_MAX_PAGES + 2 <= usize::MAX,
        ensures
            final(self).wf(),
            tree_usable(final(self)@),
            same_tree(old(self)@, final(self)@),
            r matches Ok(lines) ==> tree_lines(old(self)@.pages, page_num as int, indentation_level as nat, TABLE_MAX_PAGES as nat) == Some(lines@),
            r matches Err(e) ==> tree_lines(old(self)@.pages, page_num as int, indentation_level as nat, TABLE_MAX_PAGES as nat) is None
                && e matches TableError::NodeNotFound(_),
    {
        self.print_tree_within(page_num, indentation_level, TABLE_MAX_PAGES)
    }
}

} // verus!
