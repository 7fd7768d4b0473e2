//! The byte layout of a B-tree node inside a page, and the accessors that read and write it.
use crate::bytes::{be_u32, copy_out, copy_within, put_bytes, put_u32, read_u32, write_bytes, write_u32};
use crate::constants::{PAGE_SIZE, ROW_SIZE};
use crate::table::TableError;
use vstd::prelude::*;

verus! {

// Common node header layout
pub const NODE_TYPE_SIZE: usize = 1;
pub const NODE_TYPE_OFFSET: usize = 0;
pub const IS_ROOT_SIZE: usize = 1;
pub const IS_ROOT_OFFSET: usize = 1;
pub const PARENT_POINTER_SIZE: usize = 4;
pub const PARENT_POINTER_OFFSET: usize = 2;
pub const COMMON_NODE_HEADER_SIZE: usize = 6;

// Leaf node header layout
pub const LEAF_NODE_NUM_CELLS_SIZE: usize = 4;
pub const LEAF_NODE_NUM_CELLS_OFFSET: usize = 6;
pub const LEAF_NODE_NEXT_LEAF_SIZE: usize = 4;
pub const LEAF_NODE_NEXT_LEAF_OFFSET: usize = 10;
pub const LEAF_NODE_HEADER_SIZE: usize = 14;

// Leaf node body layout
pub const LEAF_NODE_KEY_SIZE: usize = 4;
pub const LEAF_NODE_KEY_OFFSET: usize = 0;
pub const LEAF_NODE_VALUE_SIZE: usize = 291;
pub const LEAF_NODE_VALUE_OFFSET: usize = 4;
pub const LEAF_NODE_CELL_SIZE: usize = 295;
pub const LEAF_NODE_SPACE_FOR_CELLS: usize = 4082;
pub const LEAF_NODE_MAX_CELLS: usize = 13;

// Leaf node split parameters
pub const LEAF_NODE_RIGHT_SPLIT_COUNT: usize = 7;
pub const LEAF_NODE_LEFT_SPLIT_COUNT: usize = 7;

// Internal node header layout
pub const INTERNAL_NODE_NUM_KEY_SIZE: usize = 4;
pub const INTERNAL_NODE_NUM_KEYS_OFFSET: usize = 6;
pub const INTERNAL_NODE_RIGHT_CHILD_SIZE: usize = 4;
pub const INTERNAL_NODE_RIGHT_CHILD_OFFSET: usize = 10;
pub const INTERNAL_NODE_HEADER_SIZE: usize = 14;

// Internal node body layout
pub const INTERNAL_NODE_KEY_SIZE: usize = 4;
pub const INTERNAL_NODE_CHILD_SIZE: usize = 4;
pub const INTERNAL_NODE_CELL_SIZE: usize = 8;
pub const INTERNAL_NODE_MAX_CELLS: usize = 3;
pub const INVALID_PAGE_NUM: usize = 4294967295;

// Internal node split parameters
pub const INTERNAL_NODE_LEFT_SPLIT_COUNT: usize = 2;
pub const INTERNAL_NODE_RIGHT_SPLIT_COUNT: usize = 3;

/// How the layout sizes above follow from one another.
pub proof fn lemma_layout_sizes()
    ensures
        IS_ROOT_OFFSET == NODE_TYPE_SIZE,
        PARENT_POINTER_OFFSET == IS_ROOT_OFFSET + IS_ROOT_SIZE,
        COMMON_NODE_HEADER_SIZE == NODE_TYPE_SIZE + IS_ROOT_SIZE + PARENT_POINTER_SIZE,
        LEAF_NODE_NUM_CELLS_OFFSET == COMMON_NODE_HEADER_SIZE,
        LEAF_NODE_NEXT_LEAF_OFFSET == LEAF_NODE_NUM_CELLS_OFFSET + LEAF_NODE_NUM_CELLS_SIZE,
        LEAF_NODE_HEADER_SIZE == COMMON_NODE_HEADER_SIZE + LEAF_NODE_NUM_CELLS_SIZE + LEAF_NODE_NUM_CELLS_SIZE,
        LEAF_NODE_VALUE_SIZE == ROW_SIZE,
        LEAF_NODE_VALUE_OFFSET == LEAF_NODE_KEY_OFFSET + LEAF_NODE_KEY_SIZE,
        LEAF_NODE_CELL_SIZE == LEAF_NODE_KEY_SIZE + LEAF_NODE_VALUE_SIZE,
        LEAF_NODE_SPACE_FOR_CELLS == PAGE_SIZE - LEAF_NODE_HEADER_SIZE,
        LEAF_NODE_MAX_CELLS == LEAF_NODE_SPACE_FOR_CELLS / LEAF_NODE_CELL_SIZE,
        LEAF_NODE_RIGHT_SPLIT_COUNT == (LEAF_NODE_MAX_CELLS + 1) / 2,
        LEAF_NODE_LEFT_SPLIT_COUNT == (LEAF_NODE_MAX_CELLS + 1) - LEAF_NODE_RIGHT_SPLIT_COUNT,
        INTERNAL_NODE_NUM_KEYS_OFFSET == COMMON_NODE_HEADER_SIZE,
        INTERNAL_NODE_RIGHT_CHILD_OFFSET == INTERNAL_NODE_NUM_KEYS_OFFSET + INTERNAL_NODE_NUM_KEY_SIZE,
        INTERNAL_NODE_HEADER_SIZE == COMMON_NODE_HEADER_SIZE + INTERNAL_NODE_NUM_KEY_SIZE + INTERNAL_NODE_RIGHT_CHILD_SIZE,
        INTERNAL_NODE_CELL_SIZE == INTERNAL_NODE_CHILD_SIZE + INTERNAL_NODE_KEY_SIZE,
        INTERNAL_NODE_LEFT_SPLIT_COUNT == (INTERNAL_NODE_MAX_CELLS + 2) / 2,
        INTERNAL_NODE_RIGHT_SPLIT_COUNT == (INTERNAL_NODE_MAX_CELLS + 2) - INTERNAL_NODE_LEFT_SPLIT_COUNT,
        INVALID_PAGE_NUM == u32::MAX,
{
}

#[derive(Clone, Copy, PartialEq, Eq, Structural, Debug)]
pub enum NodeKind {
    Leaf,
    Internal,
}

// ---------------------------------------------------------------------------
// The fields of a page, as functions of its bytes.

/// The node type byte decodes to a kind (0 is internal, 1 is leaf).
pub open spec fn has_kind(p: Seq<u8>) -> bool {
    p[0] == 0 || p[0] == 1
}

pub open spec fn is_leaf(p: Seq<u8>) -> bool {
    p[0] == 1
}

pub open spec fn is_internal(p: Seq<u8>) -> bool {
    p[0] == 0
}

pub open spec fn kind_of(p: Seq<u8>) -> NodeKind {
    if p[0] == 0 { NodeKind::Internal } else { NodeKind::Leaf }
}

/// The root flag byte decodes to a boolean.
pub open spec fn has_root_flag(p: Seq<u8>) -> bool {
    p[1] == 0 || p[1] == 1
}

pub open spec fn root_flag(p: Seq<u8>) -> bool {
    p[1] == 1
}

pub open spec fn parent_of(p: Seq<u8>) -> u32 {
    be_u32(p, PARENT_POINTER_OFFSET as int)
}

pub open spec fn leaf_num_cells(p: Seq<u8>) -> u32 {
    be_u32(p, LEAF_NODE_NUM_CELLS_OFFSET as int)
}

pub open spec fn next_leaf(p: Seq<u8>) -> u32 {
    be_u32(p, LEAF_NODE_NEXT_LEAF_OFFSET as int)
}

pub open spec fn leaf_cell_offset(i: int) -> int {
    LEAF_NODE_HEADER_SIZE + i * LEAF_NODE_CELL_SIZE
}

pub open spec fn leaf_key(p: Seq<u8>, i: int) -> u32 {
    be_u32(p, leaf_cell_offset(i))
}

pub open spec fn leaf_cell(p: Seq<u8>, i: int) -> Seq<u8> {
    p.subrange(leaf_cell_offset(i), leaf_cell_offset(i) + LEAF_NODE_CELL_SIZE)
}

pub open spec fn leaf_value(p: Seq<u8>, i: int) -> Seq<u8> {
    p.subrange(leaf_cell_offset(i) + LEAF_NODE_KEY_SIZE, leaf_cell_offset(i) + LEAF_NODE_CELL_SIZE)
}

pub open spec fn num_keys(p: Seq<u8>) -> u32 {
    be_u32(p, INTERNAL_NODE_NUM_KEYS_OFFSET as int)
}

pub open spec fn right_child(p: Seq<u8>) -> u32 {
    be_u32(p, INTERNAL_NODE_RIGHT_CHILD_OFFSET as int)
}

pub open spec fn internal_cell_offset(k: int) -> int {
    INTERNAL_NODE_HEADER_SIZE + k * INTERNAL_NODE_CELL_SIZE
}

pub open spec fn internal_cell(p: Seq<u8>, k: int) -> Seq<u8> {
    p.subrange(internal_cell_offset(k), internal_cell_offset(k) + INTERNAL_NODE_CELL_SIZE)
}

/// The child page stored in cell `k` (not the right child).
pub open spec fn cell_child(p: Seq<u8>, k: int) -> u32 {
    be_u32(p, internal_cell_offset(k))
}

pub open spec fn internal_key(p: Seq<u8>, k: int) -> u32 {
    be_u32(p, internal_cell_offset(k) + INTERNAL_NODE_CHILD_SIZE)
}

/// Child `k` of an internal node: cell `k` below `num_keys`, the right child at `num_keys`.
pub open spec fn child_at(p: Seq<u8>, k: int) -> u32 {
    if k == num_keys(p) { right_child(p) } else { cell_child(p, k) }
}

/// An internal cell index whose cell lies inside the page.
pub open spec fn internal_cell_fits(k: int) -> bool {
    0 <= k && internal_cell_offset(k) + INTERNAL_NODE_CELL_SIZE <= PAGE_SIZE
}

/// A leaf cell index whose whole cell lies inside the page.
pub open spec fn leaf_cell_fits(i: int) -> bool {
    0 <= i < LEAF_NODE_MAX_CELLS
}

/// The largest key of a node as the node records it: its last key.
pub open spec fn max_key(p: Seq<u8>) -> u32 {
    if is_internal(p) {
        internal_key(p, num_keys(p) - 1)
    } else {
        leaf_key(p, leaf_num_cells(p) - 1)
    }
}

/// The bytes of a node just initialized as a leaf.
pub open spec fn init_leaf(p: Seq<u8>) -> Seq<u8> {
    put_u32(put_u32(p.update(0, 1u8).update(1, 0u8), LEAF_NODE_NUM_CELLS_OFFSET as int, 0), LEAF_NODE_NEXT_LEAF_OFFSET as int, 0)
}

/// The bytes of a node just initialized as an internal node.
pub open spec fn init_internal(p: Seq<u8>) -> Seq<u8> {
    put_u32(put_u32(p.update(0, 0u8).update(1, 0u8), INTERNAL_NODE_RIGHT_CHILD_OFFSET as int, INVALID_PAGE_NUM as u32), INTERNAL_NODE_NUM_KEYS_OFFSET as int, 0)
}

/// A node: the bytes of one page.
pub struct Node {
    pub page: Vec<u8>,
}

impl View for Node {
    type V = Seq<u8>;

    open spec fn view(&self) -> Seq<u8> {
        self.page@
    }
}

impl Node {
    /// A node spans exactly one page.
    pub open spec fn wf(&self) -> bool {
        self.page@.len() == PAGE_SIZE
    }

    /// Wraps the bytes of a page.
    pub fn from_page(page: Vec<u8>) -> (r: Node)
        requires
            page@.len() == PAGE_SIZE,
        ensures
            r@ == page@,
            r.wf(),
    {
        Node { page }
    }

    /// Gives the bytes of the page back.
    pub fn into_page(self) -> (r: Vec<u8>)
        ensures
            r@ == self@,
    {
        self.page
    }

    pub fn initialize_leaf_node(&mut self)
        requires
            old(self).wf(),
        ensures
            final(self).wf(),
            final(self)@ == init_leaf(old(self)@),
    {
        self.set_node_type(NodeKind::Leaf);
        self.set_root_node(false);
        self.set_leaf_node_num_cells(0);
        self.set_leaf_node_next_leaf(0);
    }

    pub fn initialize_internal_node(&mut self)
        requires
            old(self).wf(),
        ensures
            final(self).wf(),
            final(self)@ == init_internal(old(self)@),
    {
        self.set_node_type(NodeKind::Internal);
        self.set_root_node(false);
        self.set_internal_node_right_child(INVALID_PAGE_NUM);
        self.set_internal_node_num_cells(0);
    }

    pub fn set_leaf_node_num_cells(&mut self, n: u32)
        requires
            old(self).wf(),
            is_leaf(old(self)@),
        ensures
            final(self).wf(),
            final(self)@ == put_u32(old(self)@, LEAF_NODE_NUM_CELLS_OFFSET as int, n),
    {
        write_u32(&mut self.page, LEAF_NODE_NUM_CELLS_OFFSET, n);
    }

    pub fn set_internal_node_num_cells(&mut self, n: u32)
        requires
            old(self).wf(),
            is_internal(old(self)@),
        ensures
            final(self).wf(),
            final(self)@ == put_u32(old(self)@, INTERNAL_NODE_NUM_KEYS_OFFSET as int, n),
    {
        write_u32(&mut self.page, INTERNAL_NODE_NUM_KEYS_OFFSET, n);
    }

    /// A copy of leaf cell `cell_num`.
    pub fn leaf_node_cell(&self, cell_num: usize) -> (r: Vec<u8>)
        requires
            self.wf(),
            is_leaf(self@),
            leaf_cell_fits(cell_num as int),
        ensures
            r@ == leaf_cell(self@, cell_num as int),
    {
        let base = LEAF_NODE_HEADER_SIZE + cell_num * LEAF_NODE_CELL_SIZE;
        copy_out(&self.page, base, LEAF_NODE_CELL_SIZE)
    }

    pub fn set_leaf_node_key(&mut self, cell_num: usize, key: u32)
        requires
            old(self).wf(),
            is_leaf(old(self)@),
            cell_num <= LEAF_NODE_MAX_CELLS,
        ensures
            final(self).wf(),
            final(self)@ == put_u32(old(self)@, leaf_cell_offset(cell_num as int), key),
    {
        let base = LEAF_NODE_HEADER_SIZE + cell_num * LEAF_NODE_CELL_SIZE;
        write_u32(&mut self.page, base, key);
    }

    /// A copy of the value part of leaf cell `cell_num`.
    pub fn leaf_node_value(&self, cell_num: usize) -> (r: Vec<u8>)
        requires
            self.wf(),
            is_leaf(self@),
            leaf_cell_fits(cell_num as int),
        ensures
            r@ == leaf_value(self@, cell_num as int),
    {
        let base = LEAF_NODE_HEADER_SIZE + cell_num * LEAF_NODE_CELL_SIZE + LEAF_NODE_KEY_SIZE;
        copy_out(&self.page, base, LEAF_NODE_VALUE_SIZE)
    }

    /// Writes `value` into the value part of leaf cell `cell_num`.
    pub fn set_leaf_node_value(&mut self, cell_num: usize, value: &[u8])
        requires
            old(self).wf(),
            is_leaf(old(self)@),
            leaf_cell_fits(cell_num as int),
            value@.len() == LEAF_NODE_VALUE_SIZE,
        ensures
            final(self).wf(),
            final(self)@ == put_bytes(old(self)@, leaf_cell_offset(cell_num as int) + LEAF_NODE_KEY_SIZE, value@),
    {
        let base = LEAF_NODE_HEADER_SIZE + cell_num * LEAF_NODE_CELL_SIZE + LEAF_NODE_KEY_SIZE;
        write_bytes(&mut self.page, base, value);
    }

    pub fn copy_leaf_cell(&mut self, from_cell: usize, to_cell: usize)
        requires
            old(self).wf(),
            is_leaf(old(self)@),
            leaf_cell_fits(from_cell as int),
            leaf_cell_fits(to_cell as int),
        ensures
            final(self).wf(),
            final(self)@ == put_bytes(old(self)@, leaf_cell_offset(to_cell as int), leaf_cell(old(self)@, from_cell as int)),
    {
        let from_base = LEAF_NODE_HEADER_SIZE + from_cell * LEAF_NODE_CELL_SIZE;
        let to_base = LEAF_NODE_HEADER_SIZE + to_cell * LEAF_NODE_CELL_SIZE;
        copy_within(&mut self.page, from_base, to_base, LEAF_NODE_CELL_SIZE);
    }

    pub fn copy_internal_cell(&mut self, from_cell: usize, to_cell: usize)
        requires
            old(self).wf(),
            is_internal(old(self)@),
            internal_cell_fits(from_cell as int),
            internal_cell_fits(to_cell as int),
        ensures
            final(self).wf(),
            final(self)@ == put_bytes(old(self)@, internal_cell_offset(to_cell as int), internal_cell(old(self)@, from_cell as int)),
    {
        let from_base = INTERNAL_NODE_HEADER_SIZE + from_cell * INTERNAL_NODE_CELL_SIZE;
        let to_base = INTERNAL_NODE_HEADER_SIZE + to_cell * INTERNAL_NODE_CELL_SIZE;
        copy_within(&mut self.page, from_base, to_base, INTERNAL_NODE_CELL_SIZE);
    }

    /// Copies leaf cell `from_cell` of `source` into leaf cell `to_cell` of this node.
    pub fn copy_cell_from(&mut self, to_cell: usize, source: &Node, from_cell: usize)
        requires
            old(self).wf(),
            source.wf(),
            leaf_cell_fits(from_cell as int),
            leaf_cell_fits(to_cell as int),
        ensures
            final(self).wf(),
            final(self)@ == put_bytes(old(self)@, leaf_cell_offset(to_cell as int), leaf_cell(source@, from_cell as int)),
    {
        let to_base = LEAF_NODE_HEADER_SIZE + to_cell * LEAF_NODE_CELL_SIZE;
        let from_base = LEAF_NODE_HEADER_SIZE + from_cell * LEAF_NODE_CELL_SIZE;
        let cell = copy_out(&source.page, from_base, LEAF_NODE_CELL_SIZE);
        write_bytes(&mut self.page, to_base, cell.as_slice());
    }

    pub fn set_node_type(&mut self, kind: NodeKind)
        requires
            old(self).wf(),
        ensures
            final(self).wf(),
            final(self)@ == old(self)@.update(0, if kind == NodeKind::Internal { 0u8 } else { 1u8 }),
    {
        let b: u8 = match kind {
            NodeKind::Internal => 0,
            NodeKind::Leaf => 1,
        };
        self.page.set(NODE_TYPE_OFFSET, b);
    }

    pub fn set_internal_node_num_keys(&mut self, num_keys: usize)
        requires
            old(self).wf(),
            is_internal(old(self)@),
        ensures
            final(self).wf(),
            final(self)@ == put_u32(old(self)@, INTERNAL_NODE_NUM_KEYS_OFFSET as int, num_keys as u32),
    {
        write_u32(&mut self.page, INTERNAL_NODE_NUM_KEYS_OFFSET, num_keys as u32);
    }

    pub fn set_internal_node_right_child(&mut self, right_child_index: usize)
        requires
            old(self).wf(),
            is_internal(old(self)@),
        ensures
            final(self).wf(),
            final(self)@ == put_u32(old(self)@, INTERNAL_NODE_RIGHT_CHILD_OFFSET as int, right_child_index as u32),
    {
        write_u32(&mut self.page, INTERNAL_NODE_RIGHT_CHILD_OFFSET, right_child_index as u32);
    }

    pub fn set_internal_node_key(&mut self, key_num: usize, key: u32)
        requires
            old(self).wf(),
            is_internal(old(self)@),
            internal_cell_fits(key_num as int),
        ensures
            final(self).wf(),
            final(self)@ == put_u32(old(self)@, internal_cell_offset(key_num as int) + INTERNAL_NODE_CHILD_SIZE, key),
    {
        let base = INTERNAL_NODE_HEADER_SIZE + key_num * INTERNAL_NODE_CELL_SIZE;
        write_u32(&mut self.page, base + INTERNAL_NODE_CHILD_SIZE, key);
    }

    pub fn set_internal_node_child(&mut self, child_num: usize, page_num: usize)
        requires
            old(self).wf(),
            is_internal(old(self)@),
            child_num != num_keys(old(self)@) ==> internal_cell_fits(child_num as int),
        ensures
            final(self).wf(),
            child_num == num_keys(old(self)@) ==> final(self)@ == put_u32(old(self)@, INTERNAL_NODE_RIGHT_CHILD_OFFSET as int, page_num as u32),
            child_num != num_keys(old(self)@) ==> final(self)@ == put_u32(old(self)@, internal_cell_offset(child_num as int), page_num as u32),
    {
        let num_keys = self.get_internal_node_num_keys() as usize;
        if child_num == num_keys {
            self.set_internal_node_right_child(page_num);
        } else {
            let base = INTERNAL_NODE_HEADER_SIZE + child_num * INTERNAL_NODE_CELL_SIZE;
            write_u32(&mut self.page, base, page_num as u32);
        }
    }

    pub fn set_leaf_node_next_leaf(&mut self, next_leaf: u32)
        requires
            old(self).wf(),
            is_leaf(old(self)@),
        ensures
            final(self).wf(),
            final(self)@ == put_u32(old(self)@, LEAF_NODE_NEXT_LEAF_OFFSET as int, next_leaf),
    {
        write_u32(&mut self.page, LEAF_NODE_NEXT_LEAF_OFFSET, next_leaf);
    }

    /// A copy of internal cell `cell_num`.
    pub fn internal_node_cell(&self, cell_num: usize) -> (r: Vec<u8>)
        requires
            self.wf(),
            is_internal(self@),
            internal_cell_fits(cell_num as int),
        ensures
            r@ == internal_cell(self@, cell_num as int),
    {
        let base = INTERNAL_NODE_HEADER_SIZE + cell_num * INTERNAL_NODE_CELL_SIZE;
        copy_out(&self.page, base, INTERNAL_NODE_CELL_SIZE)
    }

    /// A copy of the bytes that hold child `child_num`: the right-child field at `num_keys`,
    /// the whole cell below it.
    pub fn internal_node_child(&self, child_num: usize) -> (r: Vec<u8>)
        requires
            self.wf(),
            is_internal(self@),
            child_num <= num_keys(self@),
            child_num < num_keys(self@) ==> internal_cell_fits(child_num as int),
        ensures
            child_num == num_keys(self@) ==> r@ == self@.subrange(INTERNAL_NODE_RIGHT_CHILD_OFFSET as int, INTERNAL_NODE_RIGHT_CHILD_OFFSET + INTERNAL_NODE_RIGHT_CHILD_SIZE),
            child_num < num_keys(self@) ==> r@ == internal_cell(self@, child_num as int),
    {
        let num_keys = self.get_internal_node_num_keys() as usize;
        if child_num == num_keys {
            self.internal_node_right_child()
        } else {
            self.internal_node_cell(child_num)
        }
    }

    /// A copy of the right-child field, the bytes that `get_internal_node_right_child` reads.
    pub fn internal_node_right_child(&self) -> (r: Vec<u8>)
        requires
            self.wf(),
            is_internal(self@),
        ensures
            r@ == self@.subrange(INTERNAL_NODE_RIGHT_CHILD_OFFSET as int, INTERNAL_NODE_RIGHT_CHILD_OFFSET + INTERNAL_NODE_RIGHT_CHILD_SIZE),
    {
        copy_out(&self.page, INTERNAL_NODE_RIGHT_CHILD_OFFSET, INTERNAL_NODE_RIGHT_CHILD_SIZE)
    }

    pub fn set_root_node(&mut self, root: bool)
        requires
            old(self).wf(),
        ensures
            final(self).wf(),
            final(self)@ == old(self)@.update(1, if root { 1u8 } else { 0u8 }),
    {
        let b: u8 = if root { 1 } else { 0 };
        self.page.set(IS_ROOT_OFFSET, b);
    }

    pub fn set_node_parent(&mut self, parent_id: u32)
        requires
            old(self).wf(),
        ensures
            final(self).wf(),
            final(self)@ == put_u32(old(self)@, PARENT_POINTER_OFFSET as int, parent_id),
    {
        write_u32(&mut self.page, PARENT_POINTER_OFFSET, parent_id);
    }

    pub fn leaf_node_num_cells(&self) -> (r: u32)
        requires
            self.wf(),
            is_leaf(self@),
        ensures
            r == leaf_num_cells(self@),
    {
        read_u32(&self.page, LEAF_NODE_NUM_CELLS_OFFSET)
    }

    pub fn get_leaf_node_key(&self, cell_num: usize) -> (r: u32)
        requires
            self.wf(),
            is_leaf(self@),
            cell_num <= LEAF_NODE_MAX_CELLS,
        ensures
            r == leaf_key(self@, cell_num as int),
    {
        let base = LEAF_NODE_HEADER_SIZE + cell_num * LEAF_NODE_CELL_SIZE;
        read_u32(&self.page, base)
    }

    pub fn get_node_type(&self) -> (r: NodeKind)
        requires
            self.wf(),
            has_kind(self@),
        ensures
            r == kind_of(self@),
    {
        if self.page[NODE_TYPE_OFFSET] == 0 {
            NodeKind::Internal
        } else {
            NodeKind::Leaf
        }
    }

    pub fn get_internal_node_num_keys(&self) -> (r: u32)
        requires
            self.wf(),
            is_internal(self@),
        ensures
            r == num_keys(self@),
    {
        read_u32(&self.page, INTERNAL_NODE_NUM_KEYS_OFFSET)
    }

    /// Child `child_num`: refused past `num_keys`, and where the stored page number is invalid.
    pub fn get_internal_node_child(&self, child_num: usize) -> (r: Result<u32, TableError>)
        requires
            self.wf(),
            is_internal(self@),
            child_num < num_keys(self@) ==> internal_cell_fits(child_num as int),
        ensures
            child_num > num_keys(self@) ==> r == Err::<u32, TableError>(TableError::PageOutOfBounds(child_num, num_keys(self@) as usize)),
            child_num <= num_keys(self@) && child_at(self@, child_num as int) == INVALID_PAGE_NUM ==>
                r == Err::<u32, TableError>(if child_num == num_keys(self@) {
                    TableError::RightChildInvalid(child_at(self@, child_num as int))
                } else {
                    TableError::ChildInvalid(child_at(self@, child_num as int))
                }),
            child_num <= num_keys(self@) && child_at(self@, child_num as int) != INVALID_PAGE_NUM ==>
                r == Ok::<u32, TableError>(child_at(self@, child_num as int)),
    {
        let num_keys = self.get_internal_node_num_keys() as usize;
        if child_num > num_keys {
            Err(TableError::PageOutOfBounds(child_num, num_keys))
        } else if child_num == num_keys {
            let right_child = self.get_internal_node_right_child();
            if right_child as usize == INVALID_PAGE_NUM {
                Err(TableError::RightChildInvalid(right_child))
            } else {
                Ok(right_child)
            }
        } else {
            let base = INTERNAL_NODE_HEADER_SIZE + child_num * INTERNAL_NODE_CELL_SIZE;
            let child = read_u32(&self.page, base);
            if child as usize == INVALID_PAGE_NUM {
                Err(TableError::ChildInvalid(child))
            } else {
                Ok(child)
            }
        }
    }

    pub fn get_internal_node_right_child(&self) -> (r: u32)
        requires
            self.wf(),
            is_internal(self@),
        ensures
            r == right_child(self@),
    {
        read_u32(&self.page, INTERNAL_NODE_RIGHT_CHILD_OFFSET)
    }

    /// A copy of internal cell `cell_num`.
    pub fn get_internal_node_cell(&self, cell_num: usize) -> (r: Vec<u8>)
        requires
            self.wf(),
            is_internal(self@),
            internal_cell_fits(cell_num as int),
        ensures
            r@ == internal_cell(self@, cell_num as int),
    {
        self.internal_node_cell(cell_num)
    }

    pub fn get_internal_node_key(&self, key_num: usize) -> (r: u32)
        requires
            self.wf(),
            is_internal(self@),
            internal_cell_fits(key_num as int),
        ensures
            r == internal_key(self@, key_num as int),
    {
        let base = INTERNAL_NODE_HEADER_SIZE + key_num * INTERNAL_NODE_CELL_SIZE + INTERNAL_NODE_CHILD_SIZE;
        read_u32(&self.page, base)
    }

    /// Binary search for the first key at or above `key`; `num_keys` when there is none.
    pub fn internal_node_find_child(&self, key: u32) -> (r: usize)
        requires
            self.wf(),
            is_internal(self@),
            num_keys(self@) == 0 || internal_cell_fits(num_keys(self@) - 1),
        ensures
            is_lower_bound(self@, key, r as int),
            r == key_search(self@, key, 0, num_keys(self@) as int),
    {
        let nk = self.get_internal_node_num_keys() as usize;
        let mut min_index: usize = 0;
        let mut max_index: usize = nk;
        while min_index != max_index
            invariant
                self.wf(),
                is_internal(self@),
                nk == num_keys(self@),
                nk == 0 || internal_cell_fits(nk - 1),
                min_index <= max_index <= nk,
                max_index < nk ==> internal_key(self@, max_index as int) >= key,
                min_index > 0 ==> internal_key(self@, min_index - 1) < key,
                forall|i: int| 0 <= i < min_index && keys_sorted(self@) ==> #[trigger] internal_key(self@, i) < key,
                key_search(self@, key, min_index as int, max_index as int) == key_search(self@, key, 0, nk as int),
            decreases max_index - min_index,
        {
            let index = min_index + (max_index - min_index) / 2;
            if self.get_internal_node_key(index) >= key {
                max_index = index;
            } else {
                min_index = index + 1;
            }
        }
        min_index
    }

    pub fn get_node_max_key(&self) -> (r: u32)
        requires
            self.wf(),
            has_kind(self@),
            is_internal(self@) ==> 1 <= num_keys(self@) && internal_cell_fits(num_keys(self@) - 1),
            is_leaf(self@) ==> 1 <= leaf_num_cells(self@) <= LEAF_NODE_MAX_CELLS + 1,
        ensures
            r == max_key(self@),
    {
        match self.get_node_type() {
            NodeKind::Internal => {
                self.get_internal_node_key(self.get_internal_node_num_keys() as usize - 1)
            },
            NodeKind::Leaf => self.get_leaf_node_key(self.leaf_node_num_cells() as usize - 1),
        }
    }

    pub fn is_root_node(&self) -> (r: bool)
        requires
            self.wf(),
            has_root_flag(self@),
        ensures
            r == root_flag(self@),
    {
        self.page[IS_ROOT_OFFSET] == 1
    }

    pub fn get_leaf_node_next_leaf(&self) -> (r: u32)
        requires
            self.wf(),
            is_leaf(self@),
        ensures
            r == next_leaf(self@),
    {
        read_u32(&self.page, LEAF_NODE_NEXT_LEAF_OFFSET)
    }

    pub fn get_node_parent(&self) -> (r: u32)
        requires
            self.wf(),
        ensures
            r == parent_of(self@),
    {
        read_u32(&self.page, PARENT_POINTER_OFFSET)
    }
}

impl Node {
    /// Writes `entries` (child page, key) as the node's children: all but the last into the
    /// cells, the last as the right child, with one key fewer than entries; as many entries as
    /// there are cells in a page, and one more.
    pub fn write_entries(&mut self, entries: &Vec<(u32, u32)>)
        requires
            old(self).wf(),
            is_internal(old(self)@),
            1 <= entries@.len(),
            internal_cell_offset(entries@.len() - 1) <= PAGE_SIZE,
        ensures
            final(self).wf(),
            entries_written(old(self)@, final(self)@, entries@),
    {
        let ghost a = self@;
        let len = entries.len();
        self.set_internal_node_num_keys(len - 1);
        let mut i: usize = 0;
        while i < len
            invariant
                self.wf(),
                is_internal(self@),
                a.len() == PAGE_SIZE,
                len == entries@.len(),
                1 <= len,
                internal_cell_offset(len - 1) <= PAGE_SIZE,
                i <= len,
                num_keys(self@) == len - 1,
                i == len ==> right_child(self@) == entries@[len - 1].0,
                forall|k: int| 0 <= k < i && k < len - 1 ==> #[trigger] cell_child(self@, k) == entries@[k].0,
                forall|k: int| 0 <= k < i && k < len - 1 ==> #[trigger] internal_key(self@, k) == entries@[k].1,
                forall|j: int| 0 <= j < PAGE_SIZE && !(INTERNAL_NODE_NUM_KEYS_OFFSET <= j < internal_cell_offset(len - 1))
                    ==> #[trigger] self@[j] == a[j],
            decreases len - i,
        {
            let (child, key) = entries[i];
            let ghost s = self@;
            if i == len - 1 {
                self.set_internal_node_right_child(child as usize);
                proof {
                    crate::bytes::lemma_put_u32(s, INTERNAL_NODE_RIGHT_CHILD_OFFSET as int, child);
                }
            } else {
                self.set_internal_node_child(i, child as usize);
                self.set_internal_node_key(i, key);
                proof {
                    let o = internal_cell_offset(i as int);
                    crate::bytes::lemma_put_u32(s, o, child);
                    crate::bytes::lemma_put_u32(put_u32(s, o, child), o + INTERNAL_NODE_CHILD_SIZE, key);
                }
            }
            proof {
                let b = self@;
                assert(child == entries@[i as int].0 && key == entries@[i as int].1);
                if i < len - 1 {
                    assert(cell_child(b, i as int) == child);
                    assert(internal_key(b, i as int) == key);
                }
                assert(b[6] == s[6] && b[7] == s[7] && b[8] == s[8] && b[9] == s[9]);
                if i < len - 1 {
                    assert(b[10] == s[10] && b[11] == s[11] && b[12] == s[12] && b[13] == s[13]);
                }
                assert forall|k: int| 0 <= k < i + 1 && k < len - 1 implies #[trigger] cell_child(b, k) == entries@[k].0
                    && internal_key(b, k) == entries@[k].1 by {
                    let o = internal_cell_offset(k);
                    if k == i {
                        let o1 = put_u32(s, o, child);
                        assert(b[o] == o1[o] && b[o + 1] == o1[o + 1] && b[o + 2] == o1[o + 2] && b[o + 3] == o1[o + 3]);
                    } else {
                    assert(internal_key(s, k) == entries@[k].1);
                    assert(cell_child(s, k) == entries@[k].0);
                    assert(b[o] == s[o] && b[o + 1] == s[o + 1] && b[o + 2] == s[o + 2] && b[o + 3] == s[o + 3]);
                    assert(b[o + 4] == s[o + 4] && b[o + 5] == s[o + 5] && b[o + 6] == s[o + 6] && b[o + 7] == s[o + 7]);
                    }
                }
                assert forall|k: int| 0 <= k < i + 1 && k < len - 1 implies #[trigger] internal_key(b, k) == entries@[k].1 by {
                    assert(cell_child(b, k) == entries@[k].0 && internal_key(b, k) == entries@[k].1);
                }
            }
            i = i + 1;
        }
    }
}

/// Internal page `b` is page `a` with `entries` written as its children: one key fewer than
/// entries, entry `k`'s child and key in cell `k`, the last entry's child as the right child,
/// and the bytes before the key count and after the written cells kept.
pub open spec fn entries_written(a: Seq<u8>, b: Seq<u8>, entries: Seq<(u32, u32)>) -> bool {
    let len = entries.len() as int;
    &&& b.len() == a.len()
    &&& num_keys(b) == len - 1
    &&& right_child(b) == entries[len - 1].0
    &&& forall|k: int| 0 <= k < len - 1 ==> #[trigger] cell_child(b, k) == entries[k].0
    &&& forall|k: int| 0 <= k < len - 1 ==> #[trigger] internal_key(b, k) == entries[k].1
    &&& forall|j: int| 0 <= j < a.len() && !(INTERNAL_NODE_NUM_KEYS_OFFSET <= j < internal_cell_offset(len - 1))
        ==> #[trigger] b[j] == a[j]
}

/// The index that bisecting the keys `lo..hi` of internal page `p` for `key` settles on:
/// the middle key at or above `key` keeps the lower half, else the upper half is kept.
/// With sorted keys this is the first key at or above `key` (see `is_lower_bound`).
pub open spec fn key_search(p: Seq<u8>, key: u32, lo: int, hi: int) -> int
    decreases hi - lo,
{
    if lo >= hi {
        lo
    } else {
        let mid = lo + (hi - lo) / 2;
        if internal_key(p, mid) >= key {
            key_search(p, key, lo, mid)
        } else {
            key_search(p, key, mid + 1, hi)
        }
    }
}

/// The keys of an internal node are in non-decreasing order.
pub open spec fn keys_sorted(p: Seq<u8>) -> bool {
    forall|i: int, j: int| 0 <= i <= j < num_keys(p) ==> internal_key(p, i) <= internal_key(p, j)
}

/// `r` is where the search for `key` among the keys of internal node `p` stops: no key below
/// `r` is at or above `key` when the keys are sorted, the key just below `r` is below `key`,
/// and the key at `r`, if any, is at or above it.
pub open spec fn is_lower_bound(p: Seq<u8>, key: u32, r: int) -> bool {
    &&& 0 <= r <= num_keys(p)
    &&& r < num_keys(p) ==> internal_key(p, r) >= key
    &&& r > 0 ==> internal_key(p, r - 1) < key
    &&& keys_sorted(p) ==> forall|i: int| 0 <= i < r ==> #[trigger] internal_key(p, i) < key
}

} // verus!
