//! The page: a 4096-byte buffer read as a leaf or an internal node of the
//! B+ tree. Every multi-byte integer is stored in eight bytes, little-endian.
//!
//! Byte offsets within a page:
//!
//! - `[0]` node type (0 is internal, anything else is leaf)
//! - `[1]` root flag
//! - `[2, 10)` parent
//! - leaf: `[10, 18)` number of cells, `[18, 26)` next leaf, then cells of
//!   an 8-byte key and a 292-byte value
//! - internal: `[10, 18)` number of keys, `[18, 26)` right child, then cells
//!   of an 8-byte child and an 8-byte key

use crate::bytes::{lemma_splice_adjacent, le_read_u64, le_write_u64, read_range, splice, write_range, zero_bytes, zeroed};
use crate::error::Error;
use crate::row::ROW_SIZE;
use vstd::bytes::{
    lemma_auto_spec_u64_to_from_le_bytes, spec_u64_from_le_bytes, spec_u64_to_le_bytes,
};
use vstd::prelude::*;

verus! {

/// The two kinds of node.
#[derive(Clone, Copy, Debug, PartialEq, Eq, Structural)]
pub enum NodeType {
    Internal,
    Leaf,
}

/// A page-sized buffer.
#[derive(Debug)]
pub struct Page(pub Vec<u8>);

pub const PAGE_SIZE: usize = 4096;

// Common node header layout
pub const TYPE_OFFSET: usize = 0;

pub const TYPE_SIZE: usize = 1;

pub const IS_ROOT_OFFSET: usize = TYPE_SIZE;

pub const IS_ROOT_SIZE: usize = 1;

pub const PARENT_OFFSET: usize = IS_ROOT_OFFSET + IS_ROOT_SIZE;

pub const PARENT_SIZE: usize = 8;

pub const COMMON_HEADER_SIZE: usize = TYPE_SIZE + IS_ROOT_SIZE + PARENT_SIZE;

// Leaf node header layout
pub const LEAF_NUM_CELLS_OFFSET: usize = COMMON_HEADER_SIZE;

pub const LEAF_NUM_CELLS_SIZE: usize = 8;

pub const LEAF_NEXT_LEAF_OFFSET: usize = LEAF_NUM_CELLS_OFFSET + LEAF_NUM_CELLS_SIZE;

pub const LEAF_NEXT_LEAF_SIZE: usize = 8;

pub const LEAF_HEADER_SIZE: usize = COMMON_HEADER_SIZE + LEAF_NUM_CELLS_SIZE
    + LEAF_NEXT_LEAF_SIZE;

// Leaf node body layout
pub const LEAF_KEY_OFFSET: usize = 0;

pub const LEAF_KEY_SIZE: usize = 8;

pub const LEAF_VALUE_OFFSET: usize = LEAF_KEY_SIZE;

pub const LEAF_VALUE_SIZE: usize = ROW_SIZE;

pub const LEAF_CELL_SIZE: usize = LEAF_KEY_SIZE + LEAF_VALUE_SIZE;

pub const LEAF_MAX_CELLS: usize = (PAGE_SIZE - LEAF_HEADER_SIZE) / LEAF_CELL_SIZE;

pub const LEAF_RIGHT_SPLIT_COUNT: usize = (LEAF_MAX_CELLS + 1) / 2;

pub const LEAF_LEFT_SPLIT_COUNT: usize = LEAF_MAX_CELLS + 1 - LEAF_RIGHT_SPLIT_COUNT;

// Internal node header layout
pub const INTERNAL_NUM_KEYS_OFFSET: usize = COMMON_HEADER_SIZE;

pub const INTERNAL_NUM_KEYS_SIZE: usize = 8;

pub const INTERNAL_RIGHT_CHILD_OFFSET: usize = INTERNAL_NUM_KEYS_OFFSET + INTERNAL_NUM_KEYS_SIZE;

pub const INTERNAL_RIGHT_CHILD_SIZE: usize = 8;

pub const INTERNAL_HEADER_SIZE: usize = COMMON_HEADER_SIZE + INTERNAL_NUM_KEYS_SIZE
    + INTERNAL_RIGHT_CHILD_SIZE;

// Internal node body layout
pub const INTERNAL_KEY_SIZE: usize = 8;

pub const INTERNAL_CHILD_SIZE: usize = 8;

pub const INTERNAL_CELL_SIZE: usize = INTERNAL_KEY_SIZE + INTERNAL_CHILD_SIZE;

/// The most keys that an internal node is allowed to hold.
pub const INTERNAL_MAX_CELLS: usize = 3;

/// The number of internal cells that a page has room for.
pub const INTERNAL_CELL_CAPACITY: usize = (PAGE_SIZE - INTERNAL_HEADER_SIZE) / INTERNAL_CELL_SIZE;

/// The values of the derived layout constants, and where the cells start.
pub proof fn lemma_layout()
    ensures
        COMMON_HEADER_SIZE == 10,
        LEAF_HEADER_SIZE == 26,
        LEAF_VALUE_SIZE == 292,
        LEAF_CELL_SIZE == 300,
        LEAF_MAX_CELLS == 13,
        LEAF_RIGHT_SPLIT_COUNT == 7,
        LEAF_LEFT_SPLIT_COUNT == 7,
        INTERNAL_HEADER_SIZE == 26,
        INTERNAL_CELL_SIZE == 16,
        INTERNAL_CELL_CAPACITY == 254,
        forall|cell: int| #[trigger] leaf_cell_offset(cell) == 26 + 300 * cell,
        forall|cell: int| #[trigger] internal_cell_offset(cell) == 26 + 16 * cell,
{
    assert(LEAF_MAX_CELLS == 13) by (nonlinear_arith)
        requires
            LEAF_MAX_CELLS == (4096 - 26) / 300,
    ;
    assert(INTERNAL_CELL_CAPACITY == 254) by (nonlinear_arith)
        requires
            INTERNAL_CELL_CAPACITY == (4096 - 26) / 16,
    ;
}

impl View for Page {
    type V = Seq<u8>;

    open spec fn view(&self) -> Seq<u8> {
        self.0@
    }
}

/// The page index stored in the eight bytes of `bytes` at `pos`.
pub open spec fn index_at(bytes: Seq<u8>, pos: int) -> usize {
    spec_u64_from_le_bytes(bytes.subrange(pos, pos + 8)) as usize
}

/// Where the leaf cell `cell` starts.
pub open spec fn leaf_cell_offset(cell: int) -> int {
    LEAF_HEADER_SIZE + cell * LEAF_CELL_SIZE
}

/// Where the internal cell `cell` starts.
pub open spec fn internal_cell_offset(cell: int) -> int {
    INTERNAL_HEADER_SIZE + cell * INTERNAL_CELL_SIZE
}

/// The header that both kinds of node share.
pub ghost struct Header {
    pub node_type: NodeType,
    pub is_root: bool,
    pub parent: usize,
}

/// A page read as a leaf: its counters and every cell that it has room for.
pub ghost struct LeafView {
    pub num_cells: usize,
    pub next_leaf: usize,
    pub keys: Seq<usize>,
    pub values: Seq<Seq<u8>>,
}

/// A page read as an internal node: its counters and every cell that it has
/// room for.
pub ghost struct InternalView {
    pub num_keys: usize,
    pub right_child: usize,
    pub children: Seq<usize>,
    pub keys: Seq<usize>,
}

/// The keys in `keys[0..n)` are strictly increasing.
pub open spec fn strictly_increasing(keys: Seq<usize>, n: int) -> bool {
    forall|i: int, j: int| 0 <= i < j < n ==> keys[i] < keys[j]
}

/// The least `i` in `[0, n]` with `key <= keys[i]`, or `n` if there is none,
/// for keys that are strictly increasing.
pub open spec fn lower_bound(keys: Seq<usize>, n: int, key: usize, i: int) -> bool {
    &&& 0 <= i <= n
    &&& forall|j: int| 0 <= j < i ==> keys[j] < key
    &&& forall|j: int| i <= j < n ==> key <= keys[j]
}

/// The slot of `key` among `keys[0..n)`: the number of leading keys up to
/// and including the last one that is below `key`. For keys that are
/// strictly increasing this is the one slot that `lower_bound` admits.
pub open spec fn slot_of(keys: Seq<usize>, n: int, key: usize) -> int
    decreases n,
{
    if n <= 0 {
        0
    } else if keys[n - 1] < key {
        n
    } else {
        slot_of(keys, n - 1, key)
    }
}

/// Whatever slot `lower_bound` admits is the slot that `slot_of` computes.
pub proof fn lemma_lower_bound_is_slot(keys: Seq<usize>, n: int, key: usize, i: int)
    requires
        lower_bound(keys, n, key, i),
    ensures
        i == slot_of(keys, n, key),
    decreases n,
{
    if n <= 0 {
    } else if keys[n - 1] < key {
    } else {
        lemma_lower_bound_is_slot(keys, n - 1, key, i);
    }
}

/// Among strictly increasing keys, `slot_of` is the lower bound.
pub proof fn lemma_slot_is_lower_bound(keys: Seq<usize>, n: int, key: usize)
    requires
        0 <= n,
        strictly_increasing(keys, n),
    ensures
        lower_bound(keys, n, key, slot_of(keys, n, key)),
    decreases n,
{
    if n <= 0 {
    } else if keys[n - 1] < key {
    } else {
        lemma_slot_is_lower_bound(keys, n - 1, key);
    }
}

/// The common header of the page with the bytes `bytes`.
pub open spec fn header_of(bytes: Seq<u8>) -> Header {
    Header {
        node_type: if bytes[TYPE_OFFSET as int] == 0 {
            NodeType::Internal
        } else {
            NodeType::Leaf
        },
        is_root: bytes[IS_ROOT_OFFSET as int] != 0,
        parent: index_at(bytes, PARENT_OFFSET as int),
    }
}

/// The page with the bytes `bytes`, read as a leaf.
pub open spec fn leaf_of(bytes: Seq<u8>) -> LeafView {
    LeafView {
        num_cells: index_at(bytes, LEAF_NUM_CELLS_OFFSET as int),
        next_leaf: index_at(bytes, LEAF_NEXT_LEAF_OFFSET as int),
        keys: Seq::new(
            LEAF_MAX_CELLS as nat,
            |i: int| index_at(bytes, leaf_cell_offset(i) + LEAF_KEY_OFFSET),
        ),
        values: Seq::new(
            LEAF_MAX_CELLS as nat,
            |i: int|
                bytes.subrange(
                    leaf_cell_offset(i) + LEAF_VALUE_OFFSET,
                    leaf_cell_offset(i) + LEAF_VALUE_OFFSET + LEAF_VALUE_SIZE,
                ),
        ),
    }
}

/// The page with the bytes `bytes`, read as an internal node.
pub open spec fn internal_of(bytes: Seq<u8>) -> InternalView {
    InternalView {
        num_keys: index_at(bytes, INTERNAL_NUM_KEYS_OFFSET as int),
        right_child: index_at(bytes, INTERNAL_RIGHT_CHILD_OFFSET as int),
        children: Seq::new(
            INTERNAL_CELL_CAPACITY as nat,
            |i: int| index_at(bytes, internal_cell_offset(i)),
        ),
        keys: Seq::new(
            INTERNAL_CELL_CAPACITY as nat,
            |i: int| index_at(bytes, internal_cell_offset(i) + INTERNAL_CHILD_SIZE),
        ),
    }
}

/// The last key in use of the page with the bytes `bytes`.
pub open spec fn max_key_of(bytes: Seq<u8>) -> usize {
    match header_of(bytes).node_type {
        NodeType::Internal => internal_of(bytes).keys[internal_of(bytes).num_keys - 1],
        NodeType::Leaf => leaf_of(bytes).keys[leaf_of(bytes).num_cells - 1],
    }
}

impl Page {
    /// The buffer has the size of a page.
    pub open spec fn wf(&self) -> bool {
        self@.len() == PAGE_SIZE
    }

    /// The common header.
    pub open spec fn header(&self) -> Header {
        header_of(self@)
    }

    /// The page read as a leaf.
    pub open spec fn leaf(&self) -> LeafView {
        leaf_of(self@)
    }

    /// The page read as an internal node.
    pub open spec fn internal(&self) -> InternalView {
        internal_of(self@)
    }

    /// Reads the page index stored at `pos`.
    fn read_index(&self, pos: usize) -> (value: usize)
        requires
            self.wf(),
            pos + 8 <= PAGE_SIZE,
        ensures
            value == index_at(self@, pos as int),
    {
        le_read_u64(self.0.as_slice(), pos) as usize
    }

    /// Stores the page index `value` at `pos`.
    fn write_index(&mut self, pos: usize, value: usize)
        requires
            old(self).wf(),
            pos + 8 <= PAGE_SIZE,
        ensures
            final(self).wf(),
            final(self)@ == splice(old(self)@, pos as int, spec_u64_to_le_bytes(value as u64)),
            index_at(final(self)@, pos as int) == value,
            forall|q: int|
                0 <= q && q + 8 <= PAGE_SIZE && (q + 8 <= pos || pos + 8 <= q) ==> #[trigger] index_at(
                    final(self)@,
                    q,
                ) == index_at(old(self)@, q),
            forall|a: int, b: int|
                0 <= a <= b <= PAGE_SIZE && (b <= pos || pos + 8 <= a)
                    ==> #[trigger] final(self)@.subrange(a, b) == old(self)@.subrange(a, b),
            forall|i: int|
                0 <= i < PAGE_SIZE && (i < pos || pos + 8 <= i) ==> #[trigger] final(self)@[i] == old(self)@[i],
    {
        le_write_u64(&mut self.0, pos, value as u64);
        proof {
            lemma_auto_spec_u64_to_from_le_bytes();
            let src = spec_u64_to_le_bytes(value as u64);
            assert(self@.subrange(pos as int, pos + 8) =~= src);
            assert forall|a: int, b: int|
                0 <= a <= b <= PAGE_SIZE && (b <= pos || pos + 8 <= a)
                    implies #[trigger] self@.subrange(a, b) == old(self)@.subrange(a, b) by {
                assert(self@.subrange(a, b) =~= old(self)@.subrange(a, b));
            }
        }
    }

    /// Overwrites the bytes from `pos` on with `src`.
    fn write_bytes(&mut self, pos: usize, src: &[u8])
        requires
            old(self).wf(),
            pos + src@.len() <= PAGE_SIZE,
        ensures
            final(self).wf(),
            final(self)@ == splice(old(self)@, pos as int, src@),
            final(self)@.subrange(pos as int, pos + src@.len()) == src@,
            forall|a: int, b: int|
                0 <= a <= b <= PAGE_SIZE && (b <= pos || pos + src@.len() <= a)
                    ==> #[trigger] final(self)@.subrange(a, b) == old(self)@.subrange(a, b),
            forall|q: int|
                0 <= q && q + 8 <= PAGE_SIZE && (q + 8 <= pos || pos + src@.len() <= q)
                    ==> #[trigger] index_at(final(self)@, q) == index_at(old(self)@, q),
            forall|i: int|
                0 <= i < PAGE_SIZE && (i < pos || pos + src@.len() <= i)
                    ==> #[trigger] final(self)@[i] == old(self)@[i],
    {
        write_range(&mut self.0, pos, src);
        proof {
            assert(self@.subrange(pos as int, pos + src@.len()) =~= src@);
            assert forall|a: int, b: int|
                0 <= a <= b <= PAGE_SIZE && (b <= pos || pos + src@.len() <= a)
                    implies #[trigger] self@.subrange(a, b) == old(self)@.subrange(a, b) by {
                assert(self@.subrange(a, b) =~= old(self)@.subrange(a, b));
            }
        }
    }

    /// Overwrites the byte at `pos`.
    fn write_byte(&mut self, pos: usize, byte: u8)
        requires
            old(self).wf(),
            pos < PAGE_SIZE,
        ensures
            final(self).wf(),
            final(self)@ == old(self)@.update(pos as int, byte),
            forall|a: int, b: int|
                0 <= a <= b <= PAGE_SIZE && (b <= pos || pos < a)
                    ==> #[trigger] final(self)@.subrange(a, b) == old(self)@.subrange(a, b),
            forall|q: int|
                0 <= q && q + 8 <= PAGE_SIZE && (q + 8 <= pos || pos < q) ==> #[trigger] index_at(
                    final(self)@,
                    q,
                ) == index_at(old(self)@, q),
    {
        self.0[pos] = byte;
        proof {
            assert forall|a: int, b: int|
                0 <= a <= b <= PAGE_SIZE && (b <= pos || pos < a)
                    implies #[trigger] self@.subrange(a, b) == old(self)@.subrange(a, b) by {
                assert(self@.subrange(a, b) =~= old(self)@.subrange(a, b));
            }
        }
    }
}

// Common node methods
impl Page {
    /// The kind of node that the page holds.
    pub fn get_type(&self) -> (node_type: NodeType)
        requires
            self.wf(),
        ensures
            node_type == self.header().node_type,
    {
        if self.0[TYPE_OFFSET] == 0 {
            NodeType::Internal
        } else {
            NodeType::Leaf
        }
    }

    /// Whether the page is the root of the tree.
    pub fn get_is_root(&self) -> (is_root: bool)
        requires
            self.wf(),
        ensures
            is_root == self.header().is_root,
    {
        self.0[IS_ROOT_OFFSET] != 0
    }

    /// The page number of the parent node.
    pub fn get_parent(&self) -> (parent: usize)
        requires
            self.wf(),
        ensures
            parent == self.header().parent,
    {
        self.read_index(PARENT_OFFSET)
    }

    /// Stamps the kind of node.
    pub fn set_type(&mut self, node_type: NodeType)
        requires
            old(self).wf(),
        ensures
            final(self).wf(),
            final(self)@ == old(self)@.update(
                TYPE_OFFSET as int,
                match node_type {
                    NodeType::Internal => 0u8,
                    NodeType::Leaf => 1u8,
                },
            ),
            final(self).header() == (Header { node_type, ..old(self).header() }),
            final(self).leaf() == old(self).leaf(),
            final(self).internal() == old(self).internal(),
    {
        let byte: u8 = match node_type {
            NodeType::Internal => 0,
            NodeType::Leaf => 1,
        };
        self.write_byte(TYPE_OFFSET, byte);
        proof {
            old(self).lemma_views_kept(*self);
        }
    }

    /// Sets or clears the root flag.
    pub fn set_is_root(&mut self, is_root: bool)
        requires
            old(self).wf(),
        ensures
            final(self).wf(),
            final(self)@ == old(self)@.update(
                IS_ROOT_OFFSET as int,
                if is_root {
                    1u8
                } else {
                    0u8
                },
            ),
            final(self).header() == (Header { is_root, ..old(self).header() }),
            final(self).leaf() == old(self).leaf(),
            final(self).internal() == old(self).internal(),
    {
        let byte: u8 = if is_root {
            1
        } else {
            0
        };
        self.write_byte(IS_ROOT_OFFSET, byte);
        proof {
            old(self).lemma_views_kept(*self);
        }
    }

    /// Records the page number of the parent node.
    pub fn set_parent(&mut self, parent_page_num: usize)
        requires
            old(self).wf(),
        ensures
            final(self).wf(),
            final(self)@ == splice(
                old(self)@,
                PARENT_OFFSET as int,
                spec_u64_to_le_bytes(parent_page_num as u64),
            ),
            final(self).header() == (Header { parent: parent_page_num, ..old(self).header() }),
            final(self).leaf() == old(self).leaf(),
            final(self).internal() == old(self).internal(),
    {
        self.write_index(PARENT_OFFSET, parent_page_num);
        proof {
            old(self).lemma_views_kept(*self);
        }
    }

    /// Two pages that agree on every byte after the common header read the
    /// same as a leaf and as an internal node.
    proof fn lemma_views_kept(self, after: Page)
        requires
            self.wf(),
            after.wf(),
            forall|a: int, b: int|
                COMMON_HEADER_SIZE <= a <= b <= PAGE_SIZE ==> #[trigger] after@.subrange(a, b)
                    == self@.subrange(a, b),
            forall|q: int|
                COMMON_HEADER_SIZE <= q && q + 8 <= PAGE_SIZE ==> #[trigger] index_at(after@, q)
                    == index_at(self@, q),
        ensures
            after.leaf() == self.leaf(),
            after.internal() == self.internal(),
    {
        lemma_layout();
        assert(after.leaf().keys =~= self.leaf().keys);
        assert(after.leaf().values =~= self.leaf().values);
        assert(after.internal().keys =~= self.internal().keys);
        assert(after.internal().children =~= self.internal().children);
    }
}

/// A page index of zero is stored as eight zero bytes.
pub proof fn lemma_zero_index()
    ensures
        spec_u64_to_le_bytes(0) == zero_bytes(8),
        spec_u64_from_le_bytes(zero_bytes(8)) == 0,
{
    vstd::bytes::spec_u64_to_le_bytes_to_open(0);
    assert(0u64 & 0xff == 0) by (bit_vector);
    assert((0u64 >> 8) & 0xff == 0) by (bit_vector);
    assert((0u64 >> 16) & 0xff == 0) by (bit_vector);
    assert((0u64 >> 24) & 0xff == 0) by (bit_vector);
    assert((0u64 >> 32) & 0xff == 0) by (bit_vector);
    assert((0u64 >> 40) & 0xff == 0) by (bit_vector);
    assert((0u64 >> 48) & 0xff == 0) by (bit_vector);
    assert((0u64 >> 56) & 0xff == 0) by (bit_vector);
    assert(spec_u64_to_le_bytes(0) =~= zero_bytes(8));
    lemma_auto_spec_u64_to_from_le_bytes();
}

/// A page of zero bytes with `tag` as its first byte.
pub open spec fn blank_page(tag: u8) -> Seq<u8> {
    zero_bytes(PAGE_SIZE as nat).update(TYPE_OFFSET as int, tag)
}

/// Every page index read from a blank page is zero.
pub proof fn lemma_blank_page(tag: u8, pos: int)
    requires
        0 < pos,
        pos + 8 <= PAGE_SIZE,
    ensures
        index_at(blank_page(tag), pos) == 0,
{
    lemma_zero_index();
    assert(blank_page(tag).subrange(pos, pos + 8) =~= zero_bytes(8));
}

// Leaf node methods
impl Page {
    /// The leaf that `init_leaf` makes: no cells, no sibling, not the root.
    pub open spec fn is_fresh_leaf(&self) -> bool {
        &&& self@ == blank_page(1)
        &&& self.header() == (Header { node_type: NodeType::Leaf, is_root: false, parent: 0 })
        &&& self.leaf().num_cells == 0
        &&& self.leaf().next_leaf == 0
    }

    /// Makes the page an empty leaf: every byte zero but the type tag.
    pub fn init_leaf(&mut self)
        ensures
            final(self).wf(),
            final(self).is_fresh_leaf(),
    {
        self.0 = zeroed(PAGE_SIZE);
        self.set_type(NodeType::Leaf);
        self.set_is_root(false);
        proof {
            lemma_zero_index();
            assert(self@ =~= blank_page(1));
        }
        self.set_leaf_num_cells(0);
        proof {
            assert(self@ =~= blank_page(1));
        }
        self.set_leaf_next_leaf(0);  // 0 represents no sibling: page 0 is reserved for the root
        proof {
            assert(self@ =~= blank_page(1));
            lemma_blank_page(1, PARENT_OFFSET as int);
        }
    }

    /// The number of cells in use.
    pub fn get_leaf_num_cells(&self) -> (num_cells: usize)
        requires
            self.wf(),
        ensures
            num_cells == self.leaf().num_cells,
    {
        self.read_index(LEAF_NUM_CELLS_OFFSET)
    }

    /// The page number of the next leaf to the right, or 0 if there is none.
    pub fn get_leaf_next_leaf(&self) -> (next_leaf: usize)
        requires
            self.wf(),
        ensures
            next_leaf == self.leaf().next_leaf,
    {
        self.read_index(LEAF_NEXT_LEAF_OFFSET)
    }

    /// The key and the value of the cell `cell_num`.
    pub fn get_leaf_cell(&self, cell_num: usize) -> (cell: (usize, Vec<u8>))
        requires
            self.wf(),
            cell_num < LEAF_MAX_CELLS,
        ensures
            cell.0 == self.leaf().keys[cell_num as int],
            cell.1@ == self.leaf().values[cell_num as int],
            cell.1@.len() == LEAF_VALUE_SIZE,
    {
        (self.get_leaf_key(cell_num), self.get_leaf_value(cell_num))
    }

    /// The key of the cell `cell_num`.
    pub fn get_leaf_key(&self, cell_num: usize) -> (key: usize)
        requires
            self.wf(),
            cell_num < LEAF_MAX_CELLS,
        ensures
            key == self.leaf().keys[cell_num as int],
    {
        proof {
            lemma_layout();
        }
        let start = LEAF_HEADER_SIZE + cell_num * LEAF_CELL_SIZE + LEAF_KEY_OFFSET;
        self.read_index(start)
    }

    /// A copy of the value of the cell `cell_num`.
    pub fn get_leaf_value(&self, cell_num: usize) -> (value: Vec<u8>)
        requires
            self.wf(),
            cell_num < LEAF_MAX_CELLS,
        ensures
            value@ == self.leaf().values[cell_num as int],
            value@.len() == LEAF_VALUE_SIZE,
    {
        proof {
            lemma_layout();
        }
        let start = LEAF_HEADER_SIZE + cell_num * LEAF_CELL_SIZE + LEAF_VALUE_OFFSET;
        read_range(self.0.as_slice(), start, LEAF_VALUE_SIZE)
    }

    /// Sets the number of cells in use.
    pub fn set_leaf_num_cells(&mut self, num_cells: usize)
        requires
            old(self).wf(),
        ensures
            final(self).wf(),
            final(self)@ == splice(
                old(self)@,
                LEAF_NUM_CELLS_OFFSET as int,
                spec_u64_to_le_bytes(num_cells as u64),
            ),
            final(self).header() == old(self).header(),
            final(self).leaf() == (LeafView { num_cells, ..old(self).leaf() }),
    {
        self.write_index(LEAF_NUM_CELLS_OFFSET, num_cells);
        proof {
            lemma_layout();
            assert(self.leaf().keys =~= old(self).leaf().keys);
            assert(self.leaf().values =~= old(self).leaf().values);
        }
    }

    /// Sets the page number of the next leaf to the right.
    pub fn set_leaf_next_leaf(&mut self, next_page_num: usize)
        requires
            old(self).wf(),
        ensures
            final(self).wf(),
            final(self)@ == splice(
                old(self)@,
                LEAF_NEXT_LEAF_OFFSET as int,
                spec_u64_to_le_bytes(next_page_num as u64),
            ),
            final(self).header() == old(self).header(),
            final(self).leaf() == (LeafView { next_leaf: next_page_num, ..old(self).leaf() }),
    {
        self.write_index(LEAF_NEXT_LEAF_OFFSET, next_page_num);
        proof {
            lemma_layout();
            assert(self.leaf().keys =~= old(self).leaf().keys);
            assert(self.leaf().values =~= old(self).leaf().values);
        }
    }

    /// Overwrites the key and the value of the cell `cell_num`.
    pub fn set_leaf_cell(&mut self, cell_num: usize, cell: (usize, Vec<u8>))
        requires
            old(self).wf(),
            cell_num < LEAF_MAX_CELLS,
            cell.1@.len() == LEAF_VALUE_SIZE,
        ensures
            final(self).wf(),
            final(self)@ == splice(
                old(self)@,
                leaf_cell_offset(cell_num as int),
                spec_u64_to_le_bytes(cell.0 as u64) + cell.1@,
            ),
            final(self).header() == old(self).header(),
            final(self).leaf() == (LeafView {
                keys: old(self).leaf().keys.update(cell_num as int, cell.0),
                values: old(self).leaf().values.update(cell_num as int, cell.1@),
                ..old(self).leaf()
            }),
    {
        let (key, value) = cell;
        self.set_leaf_key(cell_num, key);
        let ghost keyed = self@;
        self.set_leaf_value(cell_num, value);
        proof {
            lemma_layout();
            lemma_auto_spec_u64_to_from_le_bytes();
            let start = leaf_cell_offset(cell_num as int);
            let key_bytes = spec_u64_to_le_bytes(cell.0 as u64);
            assert(key_bytes.len() == LEAF_KEY_SIZE);
            assert(start + LEAF_CELL_SIZE <= PAGE_SIZE);
            assert(cell.1@.len() == LEAF_VALUE_SIZE);
            lemma_splice_adjacent(old(self)@, start, key_bytes, cell.1@);
        }
    }

    /// Overwrites the key of the cell `cell_num`.
    pub fn set_leaf_key(&mut self, cell_num: usize, key: usize)
        requires
            old(self).wf(),
            cell_num < LEAF_MAX_CELLS,
        ensures
            final(self).wf(),
            final(self)@ == splice(
                old(self)@,
                leaf_cell_offset(cell_num as int),
                spec_u64_to_le_bytes(key as u64),
            ),
            final(self).header() == old(self).header(),
            final(self).leaf() == (LeafView {
                keys: old(self).leaf().keys.update(cell_num as int, key),
                ..old(self).leaf()
            }),
    {
        proof {
            lemma_layout();
        }
        let start = LEAF_HEADER_SIZE + cell_num * LEAF_CELL_SIZE;
        self.write_index(start, key);
        proof {
            assert(self.leaf().keys =~= old(self).leaf().keys.update(cell_num as int, key));
            assert(self.leaf().values =~= old(self).leaf().values);
        }
    }

    /// Overwrites the value of the cell `cell_num`.
    pub fn set_leaf_value(&mut self, cell_num: usize, value: Vec<u8>)
        requires
            old(self).wf(),
            cell_num < LEAF_MAX_CELLS,
            value@.len() == LEAF_VALUE_SIZE,
        ensures
            final(self).wf(),
            final(self)@ == splice(
                old(self)@,
                leaf_cell_offset(cell_num as int) + LEAF_KEY_SIZE,
                value@,
            ),
            final(self).header() == old(self).header(),
            final(self).leaf() == (LeafView {
                values: old(self).leaf().values.update(cell_num as int, value@),
                ..old(self).leaf()
            }),
    {
        proof {
            lemma_layout();
        }
        let start = LEAF_HEADER_SIZE + cell_num * LEAF_CELL_SIZE + LEAF_KEY_SIZE;
        self.write_bytes(start, value.as_slice());
        proof {
            assert(self.leaf().keys =~= old(self).leaf().keys);
            assert(self.leaf().values =~= old(self).leaf().values.update(cell_num as int, value@));
        }
    }

    /// Binary search among the cells in use. Where their keys are strictly
    /// increasing, the result is the position of `key` if it is stored, and
    /// the position at which to insert it otherwise.
    pub fn leaf_find(&self, key: usize) -> (index: usize)
        requires
            self.wf(),
            self.leaf().num_cells <= LEAF_MAX_CELLS,
        ensures
            index <= self.leaf().num_cells,
            strictly_increasing(self.leaf().keys, self.leaf().num_cells as int) ==> lower_bound(
                self.leaf().keys,
                self.leaf().num_cells as int,
                key,
                index as int,
            ) && index == slot_of(self.leaf().keys, self.leaf().num_cells as int, key),
    {
        let ghost keys = self.leaf().keys;
        let ghost n = self.leaf().num_cells as int;
        let mut min_index: usize = 0;
        let mut one_past_max_index: usize = self.get_leaf_num_cells();
        while one_past_max_index != min_index
            invariant
                self.wf(),
                keys == self.leaf().keys,
                n == self.leaf().num_cells,
                n <= LEAF_MAX_CELLS,
                0 <= min_index <= one_past_max_index <= n,
                strictly_increasing(keys, n) ==> forall|j: int|
                    0 <= j < min_index ==> keys[j] < key,
                strictly_increasing(keys, n) ==> forall|j: int|
                    one_past_max_index <= j < n ==> key <= keys[j],
            decreases one_past_max_index - min_index,
        {
            let index = min_index + (one_past_max_index - min_index) / 2;
            let found = self.get_leaf_key(index);
            if found == key {
                proof {
                    if strictly_increasing(keys, n) {
                        lemma_lower_bound_is_slot(keys, n, key, index as int);
                    }
                }
                return index;
            } else if found > key {
                one_past_max_index = index;
            } else {
                min_index = index + 1;
            }
        }
        proof {
            if strictly_increasing(keys, n) {
                lemma_lower_bound_is_slot(keys, n, key, min_index as int);
            }
        }
        min_index
    }
}

impl InternalView {
    /// The child in slot `child_num`: the right child for the slot after the
    /// last key.
    pub open spec fn child(self, child_num: int) -> usize {
        if child_num == self.num_keys {
            self.right_child
        } else {
            self.children[child_num]
        }
    }
}

// Internal node methods
impl Page {
    /// The internal node that `init_internal` makes: no keys, not the root.
    pub open spec fn is_fresh_internal(&self) -> bool {
        &&& self@ == blank_page(0)
        &&& self.header() == (Header { node_type: NodeType::Internal, is_root: false, parent: 0 })
        &&& self.internal().num_keys == 0
        &&& self.internal().right_child == 0
    }

    /// Makes the page an internal node without keys: every byte zero.
    pub fn init_internal(&mut self)
        ensures
            final(self).wf(),
            final(self).is_fresh_internal(),
    {
        self.0 = zeroed(PAGE_SIZE);
        self.set_type(NodeType::Internal);
        self.set_is_root(false);
        proof {
            lemma_zero_index();
            assert(self@ =~= blank_page(0));
        }
        self.set_internal_num_keys(0);
        proof {
            assert(self@ =~= blank_page(0));
            lemma_blank_page(0, PARENT_OFFSET as int);
            lemma_blank_page(0, INTERNAL_RIGHT_CHILD_OFFSET as int);
        }
    }

    /// The number of keys in use.
    pub fn get_internal_num_keys(&self) -> (num_keys: usize)
        requires
            self.wf(),
        ensures
            num_keys == self.internal().num_keys,
    {
        self.read_index(INTERNAL_NUM_KEYS_OFFSET)
    }

    /// The page number of the rightmost child.
    pub fn get_internal_right_child(&self) -> (right_child: usize)
        requires
            self.wf(),
        ensures
            right_child == self.internal().right_child,
    {
        self.read_index(INTERNAL_RIGHT_CHILD_OFFSET)
    }

    /// The key of the cell `key_num`.
    pub fn get_internal_key(&self, key_num: usize) -> (key: usize)
        requires
            self.wf(),
            key_num < INTERNAL_CELL_CAPACITY,
        ensures
            key == self.internal().keys[key_num as int],
    {
        proof {
            lemma_layout();
        }
        let start = INTERNAL_HEADER_SIZE + key_num * INTERNAL_CELL_SIZE + INTERNAL_CHILD_SIZE;
        self.read_index(start)
    }

    /// The page number stored as the child of the cell `cell_num`.
    fn cell_child(&self, cell_num: usize) -> (child: usize)
        requires
            self.wf(),
            cell_num < INTERNAL_CELL_CAPACITY,
        ensures
            child == self.internal().children[cell_num as int],
    {
        proof {
            lemma_layout();
        }
        let start = INTERNAL_HEADER_SIZE + cell_num * INTERNAL_CELL_SIZE;
        self.read_index(start)
    }

    /// Overwrites the page number stored as the child of the cell `cell_num`.
    fn set_cell_child(&mut self, cell_num: usize, child: usize)
        requires
            old(self).wf(),
            cell_num < INTERNAL_CELL_CAPACITY,
        ensures
            final(self).wf(),
            final(self)@ == splice(
                old(self)@,
                internal_cell_offset(cell_num as int),
                spec_u64_to_le_bytes(child as u64),
            ),
            final(self).header() == old(self).header(),
            final(self).internal() == (InternalView {
                children: old(self).internal().children.update(cell_num as int, child),
                ..old(self).internal()
            }),
    {
        proof {
            lemma_layout();
        }
        let start = INTERNAL_HEADER_SIZE + cell_num * INTERNAL_CELL_SIZE;
        self.write_index(start, child);
        proof {
            assert(self.internal().keys =~= old(self).internal().keys);
            assert(self.internal().children =~= old(self).internal().children.update(
                cell_num as int,
                child,
            ));
        }
    }

    /// The page number of the child in slot `child_num`, where the slot after
    /// the last key holds the right child. There is no slot beyond that one.
    pub fn get_internal_child(&self, child_num: usize) -> (res: Result<usize, Error>)
        requires
            self.wf(),
            self.internal().num_keys <= INTERNAL_CELL_CAPACITY,
        ensures
            child_num <= self.internal().num_keys ==> res == Ok::<usize, Error>(
                self.internal().child(child_num as int),
            ),
            child_num > self.internal().num_keys ==> res == Err::<usize, Error>(
                Error::ChildOutOfBounds { child_num, num_keys: self.internal().num_keys },
            ),
    {
        proof {
            lemma_layout();
        }
        let num_keys = self.get_internal_num_keys();
        if child_num > num_keys {
            Err(Error::ChildOutOfBounds { child_num, num_keys })
        } else if child_num == num_keys {
            Ok(self.get_internal_right_child())
        } else {
            Ok(self.cell_child(child_num))
        }
    }

    /// Sets the number of keys in use.
    pub fn set_internal_num_keys(&mut self, num_keys: usize)
        requires
            old(self).wf(),
        ensures
            final(self).wf(),
            final(self)@ == splice(
                old(self)@,
                INTERNAL_NUM_KEYS_OFFSET as int,
                spec_u64_to_le_bytes(num_keys as u64),
            ),
            final(self).header() == old(self).header(),
            final(self).internal() == (InternalView { num_keys, ..old(self).internal() }),
    {
        self.write_index(INTERNAL_NUM_KEYS_OFFSET, num_keys);
        proof {
            lemma_layout();
            assert(self.internal().keys =~= old(self).internal().keys);
            assert(self.internal().children =~= old(self).internal().children);
        }
    }

    /// Sets the page number of the rightmost child.
    pub fn set_internal_right_child(&mut self, right_child_page_num: usize)
        requires
            old(self).wf(),
        ensures
            final(self).wf(),
            final(self)@ == splice(
                old(self)@,
                INTERNAL_RIGHT_CHILD_OFFSET as int,
                spec_u64_to_le_bytes(right_child_page_num as u64),
            ),
            final(self).header() == old(self).header(),
            final(self).internal() == (InternalView {
                right_child: right_child_page_num,
                ..old(self).internal()
            }),
    {
        self.write_index(INTERNAL_RIGHT_CHILD_OFFSET, right_child_page_num);
        proof {
            lemma_layout();
            assert(self.internal().keys =~= old(self).internal().keys);
            assert(self.internal().children =~= old(self).internal().children);
        }
    }

    /// Overwrites the key of the cell `key_num`.
    pub fn set_internal_key(&mut self, key_num: usize, key: usize)
        requires
            old(self).wf(),
            key_num < INTERNAL_CELL_CAPACITY,
        ensures
            final(self).wf(),
            final(self)@ == splice(
                old(self)@,
                internal_cell_offset(key_num as int) + INTERNAL_CHILD_SIZE,
                spec_u64_to_le_bytes(key as u64),
            ),
            final(self).header() == old(self).header(),
            final(self).internal() == (InternalView {
                keys: old(self).internal().keys.update(key_num as int, key),
                ..old(self).internal()
            }),
    {
        proof {
            lemma_layout();
        }
        let start = INTERNAL_HEADER_SIZE + key_num * INTERNAL_CELL_SIZE + INTERNAL_CHILD_SIZE;
        self.write_index(start, key);
        proof {
            assert(self.internal().keys =~= old(self).internal().keys.update(key_num as int, key));
            assert(self.internal().children =~= old(self).internal().children);
        }
    }

    /// Overwrites the page number of the child in slot `child_num`, where the
    /// slot after the last key holds the right child. There is no slot beyond
    /// that one, and the page is left as it was when asked for one.
    pub fn set_internal_child(&mut self, child_num: usize, child: usize) -> (res: Result<
        (),
        Error,
    >)
        requires
            old(self).wf(),
            old(self).internal().num_keys <= INTERNAL_CELL_CAPACITY,
        ensures
            final(self).wf(),
            final(self).header() == old(self).header(),
            child_num < old(self).internal().num_keys ==> res is Ok && final(self)@ == splice(
                old(self)@,
                internal_cell_offset(child_num as int),
                spec_u64_to_le_bytes(child as u64),
            ) && final(self).internal() == (InternalView {
                children: old(self).internal().children.update(child_num as int, child),
                ..old(self).internal()
            }),
            child_num == old(self).internal().num_keys ==> res is Ok && final(self)@ == splice(
                old(self)@,
                INTERNAL_RIGHT_CHILD_OFFSET as int,
                spec_u64_to_le_bytes(child as u64),
            ) && final(self).internal() == (InternalView {
                right_child: child,
                ..old(self).internal()
            }),
            child_num > old(self).internal().num_keys ==> *final(self) == *old(self) && res == Err::<
                (),
                Error,
            >(Error::ChildOutOfBounds { child_num, num_keys: old(self).internal().num_keys }),
    {
        proof {
            lemma_layout();
        }
        let num_keys = self.get_internal_num_keys();
        if child_num > num_keys {
            Err(Error::ChildOutOfBounds { child_num, num_keys })
        } else if child_num == num_keys {
            self.set_internal_right_child(child);
            Ok(())
        } else {
            self.set_cell_child(child_num, child);
            Ok(())
        }
    }

    /// Binary search among the keys in use. Where they are strictly
    /// increasing, the result is the least slot whose key is not below `key`:
    /// the slot of the child in whose subtree `key` must live. The number of
    /// keys stands for the right child.
    pub fn internal_find(&self, key: usize) -> (index: usize)
        requires
            self.wf(),
            self.internal().num_keys <= INTERNAL_CELL_CAPACITY,
        ensures
            index <= self.internal().num_keys,
            strictly_increasing(self.internal().keys, self.internal().num_keys as int)
                ==> lower_bound(
                self.internal().keys,
                self.internal().num_keys as int,
                key,
                index as int,
            ) && index == slot_of(self.internal().keys, self.internal().num_keys as int, key),
    {
        let ghost keys = self.internal().keys;
        let ghost n = self.internal().num_keys as int;
        let mut min_index: usize = 0;
        let mut max_index: usize = self.get_internal_num_keys();  // there is one more child than key
        while max_index != min_index
            invariant
                self.wf(),
                keys == self.internal().keys,
                n == self.internal().num_keys,
                n <= INTERNAL_CELL_CAPACITY,
                0 <= min_index <= max_index <= n,
                strictly_increasing(keys, n) ==> forall|j: int|
                    0 <= j < min_index ==> keys[j] < key,
                strictly_increasing(keys, n) ==> forall|j: int|
                    max_index <= j < n ==> key <= keys[j],
            decreases max_index - min_index,
        {
            let index = min_index + (max_index - min_index) / 2;
            let found = self.get_internal_key(index);
            if found >= key {
                max_index = index;
            } else {
                min_index = index + 1;
            }
        }
        proof {
            if strictly_increasing(keys, n) {
                lemma_lower_bound_is_slot(keys, n, key, min_index as int);
            }
        }
        min_index
    }

    /// Overwrites the key in the slot that `internal_find` gives for
    /// `old_key`: where the keys are strictly increasing, the slot of the
    /// separator that equals `old_key` if there is one. Nothing else changes.
    pub fn internal_update_key(&mut self, old_key: usize, new_key: usize)
        requires
            old(self).wf(),
            old(self).internal().num_keys < INTERNAL_CELL_CAPACITY,
        ensures
            final(self).wf(),
            final(self).header() == old(self).header(),
            final(self).internal() == (InternalView {
                keys: final(self).internal().keys,
                ..old(self).internal()
            }),
            strictly_increasing(old(self).internal().keys, old(self).internal().num_keys as int)
                ==> {
                let slot = slot_of(
                    old(self).internal().keys,
                    old(self).internal().num_keys as int,
                    old_key,
                );
                &&& final(self)@ == splice(
                    old(self)@,
                    internal_cell_offset(slot) + INTERNAL_CHILD_SIZE,
                    spec_u64_to_le_bytes(new_key as u64),
                )
                &&& final(self).internal().keys == old(self).internal().keys.update(slot, new_key)
            },
    {
        let old_child_index = self.internal_find(old_key);
        self.set_internal_key(old_child_index, new_key);
    }
}

impl Page {
    /// The last key in use. For an internal node this is the last separator,
    /// not the largest key below the node, which lies under its right child.
    pub open spec fn max_key(&self) -> usize {
        max_key_of(self@)
    }

    /// The last key in use.
    pub fn get_max_key(&self) -> (key: usize)
        requires
            self.wf(),
            self.header().node_type == NodeType::Internal ==> 0 < self.internal().num_keys
                <= INTERNAL_CELL_CAPACITY,
            self.header().node_type == NodeType::Leaf ==> 0 < self.leaf().num_cells
                <= LEAF_MAX_CELLS,
        ensures
            key == self.max_key(),
    {
        match self.get_type() {
            NodeType::Internal => self.get_internal_key(self.get_internal_num_keys() - 1),
            NodeType::Leaf => self.get_leaf_key(self.get_leaf_num_cells() - 1),
        }
    }
}

impl Clone for Page {
    /// A deep copy of the page.
    fn clone(&self) -> (copy: Page)
        ensures
            copy@ == self@,
    {
        let bytes = self.0.clone();
        assert(bytes@ =~= self.0@);
        Page(bytes)
    }
}

/// `s` with its items in `[at, n)` moved one slot up, over the item in slot
/// `n`. The item in slot `at` stays where it is as well.
pub open spec fn shifted_up<A>(s: Seq<A>, at: int, n: int) -> Seq<A> {
    Seq::new(
        s.len(),
        |j: int|
            if at < j <= n {
                s[j - 1]
            } else {
                s[j]
            },
    )
}

impl Page {
    /// Makes room in a leaf for a cell in slot `at`: moves the cells in
    /// `[at, num_cells)` one slot up.
    pub fn leaf_shift_up(&mut self, at: usize, num_cells: usize)
        requires
            old(self).wf(),
            at <= num_cells < LEAF_MAX_CELLS,
        ensures
            final(self).wf(),
            final(self).header() == old(self).header(),
            final(self).leaf() == (LeafView {
                keys: shifted_up(old(self).leaf().keys, at as int, num_cells as int),
                values: shifted_up(old(self).leaf().values, at as int, num_cells as int),
                ..old(self).leaf()
            }),
    {
        proof {
            lemma_layout();
        }
        let mut i: usize = num_cells;
        while i > at
            invariant
                self.wf(),
                at <= i <= num_cells < LEAF_MAX_CELLS,
                self.header() == old(self).header(),
                self.leaf().num_cells == old(self).leaf().num_cells,
                self.leaf().next_leaf == old(self).leaf().next_leaf,
                self.leaf().keys.len() == LEAF_MAX_CELLS,
                self.leaf().values.len() == LEAF_MAX_CELLS,
                old(self).leaf().keys.len() == LEAF_MAX_CELLS,
                old(self).leaf().values.len() == LEAF_MAX_CELLS,
                forall|j: int|
                    0 <= j < LEAF_MAX_CELLS ==> #[trigger] self.leaf().keys[j] == (if i < j
                        <= num_cells {
                        old(self).leaf().keys[j - 1]
                    } else {
                        old(self).leaf().keys[j]
                    }),
                forall|j: int|
                    0 <= j < LEAF_MAX_CELLS ==> #[trigger] self.leaf().values[j] == (if i < j
                        <= num_cells {
                        old(self).leaf().values[j - 1]
                    } else {
                        old(self).leaf().values[j]
                    }),
            decreases i,
        {
            i -= 1;
            let cell = self.get_leaf_cell(i);
            self.set_leaf_cell(i + 1, cell);
        }
        proof {
            assert(self.leaf().keys =~= shifted_up(
                old(self).leaf().keys,
                at as int,
                num_cells as int,
            ));
            assert(self.leaf().values =~= shifted_up(
                old(self).leaf().values,
                at as int,
                num_cells as int,
            ));
        }
    }

    /// Makes room in an internal node for a cell in slot `at`: moves the
    /// cells in `[at, num_keys)` one slot up.
    pub fn internal_shift_up(&mut self, at: usize, num_keys: usize)
        requires
            old(self).wf(),
            at <= num_keys < INTERNAL_CELL_CAPACITY,
        ensures
            final(self).wf(),
            final(self).header() == old(self).header(),
            final(self).internal() == (InternalView {
                keys: shifted_up(old(self).internal().keys, at as int, num_keys as int),
                children: shifted_up(old(self).internal().children, at as int, num_keys as int),
                ..old(self).internal()
            }),
    {
        proof {
            lemma_layout();
        }
        let mut i: usize = num_keys;
        while i > at
            invariant
                self.wf(),
                at <= i <= num_keys < INTERNAL_CELL_CAPACITY,
                self.header() == old(self).header(),
                self.internal().num_keys == old(self).internal().num_keys,
                self.internal().right_child == old(self).internal().right_child,
                self.internal().keys.len() == INTERNAL_CELL_CAPACITY,
                self.internal().children.len() == INTERNAL_CELL_CAPACITY,
                old(self).internal().keys.len() == INTERNAL_CELL_CAPACITY,
                old(self).internal().children.len() == INTERNAL_CELL_CAPACITY,
                forall|j: int|
                    0 <= j < INTERNAL_CELL_CAPACITY ==> #[trigger] self.internal().keys[j] == (if i
                        < j <= num_keys {
                        old(self).internal().keys[j - 1]
                    } else {
                        old(self).internal().keys[j]
                    }),
                forall|j: int|
                    0 <= j < INTERNAL_CELL_CAPACITY ==> #[trigger] self.internal().children[j] == (
                    if i < j <= num_keys {
                        old(self).internal().children[j - 1]
                    } else {
                        old(self).internal().children[j]
                    }),
            decreases i,
        {
            i -= 1;
            let key = self.get_internal_key(i);
            let child = self.cell_child(i);
            self.set_internal_key(i + 1, key);
            self.set_cell_child(i + 1, child);
        }
        proof {
            assert(self.internal().keys =~= shifted_up(
                old(self).internal().keys,
                at as int,
                num_keys as int,
            ));
            assert(self.internal().children =~= shifted_up(
                old(self).internal().children,
                at as int,
                num_keys as int,
            ));
        }
    }
}

} // verus!
