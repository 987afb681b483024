//! The tree that a table is: which pages make a well-formed tree of at most
//! two levels, what such a tree holds, and where a key belongs in it.

use crate::chunks::{
    len_before, lemma_flatten_around, lemma_flatten_index, lemma_flatten_sorted,
    lemma_len_before_ends, sorted_cells,
};
use crate::page::{
    header_of, internal_of, leaf_of, lemma_layout, lemma_lower_bound_is_slot,
    lemma_slot_is_lower_bound, lower_bound, max_key_of, slot_of, strictly_increasing, LeafView,
    NodeType, INTERNAL_CELL_CAPACITY, INTERNAL_MAX_CELLS, LEAF_MAX_CELLS,
};
use crate::pager::MAX_PAGES;
use crate::row::{decodable, decoding, Row};
use crate::table::Table;
use vstd::bytes::spec_u32_from_le_bytes;
use vstd::prelude::*;

verus! {

/// The key that a stored record carries in its first four bytes.
pub open spec fn key_of_value(value: Seq<u8>) -> usize {
    spec_u32_from_le_bytes(value.subrange(0, 4)) as usize
}

/// The cells in use of the leaf with the bytes `bytes`: keys with values.
pub open spec fn leaf_cells(bytes: Seq<u8>) -> Seq<(usize, Seq<u8>)> {
    Seq::new(
        leaf_of(bytes).num_cells as nat,
        |i: int| (leaf_of(bytes).keys[i], leaf_of(bytes).values[i]),
    )
}

/// The page with the bytes `bytes` is a leaf whose cells in use fit, carry
/// strictly increasing keys, and each hold the record of their key.
pub open spec fn leaf_ok(bytes: Seq<u8>) -> bool {
    let leaf = leaf_of(bytes);
    &&& header_of(bytes).node_type == NodeType::Leaf
    &&& leaf.num_cells <= LEAF_MAX_CELLS
    &&& strictly_increasing(leaf.keys, leaf.num_cells as int)
    &&& forall|i: int|
        0 <= i < leaf.num_cells ==> #[trigger] leaf.keys[i] == key_of_value(leaf.values[i])
}

/// The page with the bytes `bytes` has a last key in use: it holds at least
/// one cell, and no more than a page has room for.
pub open spec fn has_max_key(bytes: Seq<u8>) -> bool {
    &&& header_of(bytes).node_type == NodeType::Internal ==> 0 < internal_of(bytes).num_keys
        <= INTERNAL_CELL_CAPACITY
    &&& header_of(bytes).node_type == NodeType::Leaf ==> 0 < leaf_of(bytes).num_cells
        <= LEAF_MAX_CELLS
}

impl Table {
    /// The bytes of the root page.
    pub open spec fn root(&self) -> Seq<u8> {
        self.pager.page(0)
    }

    /// The root is an internal node.
    pub open spec fn branching(&self) -> bool {
        header_of(self.root()).node_type == NodeType::Internal
    }

    /// The page number of the child in slot `i` of the root.
    pub open spec fn child(&self, i: int) -> usize {
        internal_of(self.root()).child(i)
    }

    /// The child in slot `i` of the root is a leaf of the tree: a page in
    /// use other than the root, a well-formed leaf with at least one cell,
    /// whose parent is the root. Left of the right child, its last key is
    /// the separator of its slot and lies below every key of the next
    /// child, which is its sibling; the right child has no sibling.
    pub open spec fn child_ok(&self, i: int) -> bool {
        let node = internal_of(self.root());
        let bytes = self.pager.page(self.child(i) as int);
        &&& 1 <= self.child(i) < self.pager.num_pages
        &&& leaf_ok(bytes)
        &&& leaf_of(bytes).num_cells >= 1
        &&& !header_of(bytes).is_root
        &&& header_of(bytes).parent == 0
        &&& i < node.num_keys ==> {
            &&& node.keys[i] == max_key_of(bytes)
            &&& leaf_of(bytes).next_leaf == self.child(i + 1)
            &&& node.keys[i] < leaf_of(self.pager.page(self.child(i + 1) as int)).keys[0]
        }
        &&& i == node.num_keys ==> leaf_of(bytes).next_leaf == 0
    }

    /// The table is a well-formed tree of at most two levels.
    pub open spec fn wf(&self) -> bool {
        &&& self.root_page_num == 0
        &&& self.pager.wf()
        &&& 1 <= self.pager.num_pages <= MAX_PAGES
        &&& self.pager.file_pages() <= self.pager.num_pages
        &&& header_of(self.root()).is_root
        &&& if self.branching() {
            let node = internal_of(self.root());
            &&& 1 <= node.num_keys <= INTERNAL_MAX_CELLS
            &&& forall|i: int| 0 <= i <= node.num_keys ==> #[trigger] self.child_ok(i)
            &&& forall|i: int, j: int|
                0 <= i < j <= node.num_keys ==> #[trigger] self.child(i) != #[trigger] self.child(j)
        } else {
            &&& leaf_ok(self.root())
            &&& leaf_of(self.root()).next_leaf == 0
        }
    }

    /// The page numbers of the leaves, from left to right.
    pub open spec fn leaves(&self) -> Seq<usize> {
        if self.branching() {
            Seq::new((internal_of(self.root()).num_keys + 1) as nat, |i: int| self.child(i))
        } else {
            seq![0usize]
        }
    }

    /// The cells of each leaf, from left to right.
    pub open spec fn cells_by_leaf(&self) -> Seq<Seq<(usize, Seq<u8>)>> {
        Seq::new(self.leaves().len(), |i: int| leaf_cells(self.pager.page(self.leaves()[i] as int)))
    }

    /// The cells of the leaf with the index `slot` among the leaves.
    pub open spec fn cells_of(&self, slot: int) -> Seq<(usize, Seq<u8>)> {
        leaf_cells(self.pager.page(self.leaves()[slot] as int))
    }

    /// Everything stored: keys with serialized records, in the order of the
    /// leaves and of the cells within each leaf.
    pub open spec fn contents(&self) -> Seq<(usize, Seq<u8>)> {
        self.cells_by_leaf().flatten()
    }

    /// The key `key` is stored.
    pub open spec fn contains_key(&self, key: usize) -> bool {
        exists|i: int| 0 <= i < self.contents().len() && #[trigger] self.contents()[i].0 == key
    }

    /// Every stored value is a serialized record with text in UTF-8.
    pub open spec fn all_decodable(&self) -> bool {
        forall|g: int| 0 <= g < self.contents().len() ==> decodable(#[trigger] self.contents()[g].1)
    }

    /// `rows` are the stored records, decoded, in the order of the contents.
    pub open spec fn is_scan(&self, rows: Seq<Row>) -> bool {
        &&& rows.len() == self.contents().len()
        &&& forall|g: int|
            0 <= g < rows.len() ==> (#[trigger] rows[g])@ == decoding(self.contents()[g].1)
    }

    /// The two tables have the same pages in use, byte for byte, over the
    /// same file.
    pub open spec fn same_pages(&self, other: &Table) -> bool {
        &&& self.root_page_num == other.root_page_num
        &&& self.pager.num_pages == other.pager.num_pages
        &&& self.pager.file@ == other.pager.file@
        &&& forall|n: int| #[trigger] self.pager.page(n) == other.pager.page(n)
    }

    /// The table `after` is this table after the page `page_num` has been
    /// looked at: nothing but the cache has changed, and a page of the file
    /// beyond the pages in use has come into use by being read.
    pub open spec fn looked_at(&self, after: &Table, page_num: usize) -> bool {
        &&& after.pager.wf()
        &&& after.root_page_num == self.root_page_num
        &&& after.pager.file@ == self.pager.file@
        &&& after.pager.num_pages == if page_num < MAX_PAGES {
            self.pager.num_pages_after_get(page_num as int)
        } else {
            self.pager.num_pages
        }
        &&& forall|n: int| #[trigger] after.pager.page(n) == self.pager.page(n)
    }

    /// No page in use is in the cache: each is in the file, if anywhere.
    pub open spec fn flushed(&self) -> bool {
        forall|n: int| 0 <= n < self.pager.num_pages ==> !#[trigger] self.pager.resident(n)
    }

    /// The index among the leaves of the leaf in which `key` lives or would
    /// have to be inserted.
    pub open spec fn leaf_slot(&self, key: usize) -> int {
        if self.branching() {
            slot_of(internal_of(self.root()).keys, internal_of(self.root()).num_keys as int, key)
        } else {
            0
        }
    }

    /// The page `page_num` is the root or one of the leaves.
    pub open spec fn in_tree(&self, page_num: usize) -> bool {
        page_num == 0 || self.leaves().contains(page_num)
    }

    /// The leaf that a search for `key` from the page `start` ends in.
    pub open spec fn leaf_from(&self, key: usize, start: usize) -> usize {
        if header_of(self.pager.page(start as int)).node_type == NodeType::Internal {
            self.child(self.leaf_slot(key))
        } else {
            start
        }
    }

    /// The page number of the leaf in which `key` lives or would have to be
    /// inserted.
    pub open spec fn target(&self, key: usize) -> usize {
        self.leaves()[self.leaf_slot(key)]
    }

    /// The leaf in which `key` lives or would have to be inserted.
    pub open spec fn target_leaf(&self, key: usize) -> LeafView {
        leaf_of(self.pager.page(self.target(key) as int))
    }

    /// The cell of `key` in its leaf: the one that holds it if it is stored,
    /// else the one at which to insert it.
    pub open spec fn target_cell(&self, key: usize) -> int {
        slot_of(self.target_leaf(key).keys, self.target_leaf(key).num_cells as int, key)
    }

    /// The place of `key` in the contents: the number of cells before the
    /// cell of `key`.
    pub open spec fn rank(&self, key: usize) -> int {
        len_before(self.cells_by_leaf(), self.leaf_slot(key)) + self.target_cell(key)
    }
}

/// Keys that increase from each slot to the next increase strictly.
pub proof fn lemma_increasing_steps(keys: Seq<usize>, n: int, i: int, j: int)
    requires
        forall|k: int| 0 <= k && k + 1 < n ==> keys[k] < #[trigger] keys[k + 1],
        0 <= i < j < n,
    ensures
        keys[i] < keys[j],
    decreases j - i,
{
    if i + 1 < j {
        lemma_increasing_steps(keys, n, i, j - 1);
        assert(keys[j - 1] < keys[j - 1 + 1]);
    } else {
        assert(keys[i] < keys[i + 1]);
    }
}

/// The keys of a leaf in use are the keys of its cells, and the values are
/// their values.
pub proof fn lemma_leaf_cells(bytes: Seq<u8>)
    requires
        leaf_of(bytes).num_cells <= LEAF_MAX_CELLS,
    ensures
        leaf_cells(bytes).len() == leaf_of(bytes).num_cells,
        forall|i: int|
            0 <= i < leaf_of(bytes).num_cells ==> (#[trigger] leaf_cells(bytes)[i]) == (
                leaf_of(bytes).keys[i],
                leaf_of(bytes).values[i],
            ),
{
}

/// A leaf is well-formed exactly if its cells are sorted and each holds the
/// record of its key.
pub proof fn lemma_leaf_ok(bytes: Seq<u8>)
    requires
        header_of(bytes).node_type == NodeType::Leaf,
        leaf_of(bytes).num_cells <= LEAF_MAX_CELLS,
    ensures
        leaf_ok(bytes) <==> (sorted_cells(leaf_cells(bytes)) && forall|i: int|
            0 <= i < leaf_cells(bytes).len() ==> (#[trigger] leaf_cells(bytes)[i]).0
                == key_of_value(leaf_cells(bytes)[i].1)),
{
    let leaf = leaf_of(bytes);
    let cells = leaf_cells(bytes);
    lemma_leaf_cells(bytes);
    if leaf_ok(bytes) {
        assert forall|i: int, j: int| 0 <= i < j < cells.len() implies cells[i].0 < cells[j].0 by {
            assert(leaf.keys[i] < leaf.keys[j]);
        }
        assert forall|i: int| 0 <= i < cells.len() implies (#[trigger] cells[i]).0 == key_of_value(
            cells[i].1,
        ) by {
            assert(leaf.keys[i] == key_of_value(leaf.values[i]));
        }
    }
    if sorted_cells(cells) && forall|i: int|
        0 <= i < cells.len() ==> (#[trigger] cells[i]).0 == key_of_value(cells[i].1) {
        assert forall|i: int, j: int| 0 <= i < j < leaf.num_cells implies leaf.keys[i]
            < leaf.keys[j] by {
            assert(cells[i].0 < cells[j].0);
        }
        assert forall|i: int| 0 <= i < leaf.num_cells implies #[trigger] leaf.keys[i]
            == key_of_value(leaf.values[i]) by {
            assert(cells[i].0 == key_of_value(cells[i].1));
        }
    }
}

impl Table {
    /// Tables with the same pages are the same tree with the same contents.
    pub proof fn lemma_same_pages(&self, other: &Table)
        requires
            self.same_pages(other),
            other.pager.wf(),
        ensures
            self.wf() ==> other.wf(),
            self.leaves() == other.leaves(),
            self.cells_by_leaf() == other.cells_by_leaf(),
            self.contents() == other.contents(),
            forall|key: usize| self.leaf_slot(key) == other.leaf_slot(key),
    {
        assert(self.root() == other.root());
        assert(self.leaves() =~= other.leaves());
        assert(self.cells_by_leaf() =~= other.cells_by_leaf());
        if self.wf() {
            if self.branching() {
                let node = internal_of(self.root());
                assert forall|i: int| 0 <= i <= node.num_keys implies #[trigger] other.child_ok(
                    i,
                ) by {
                    assert(self.child_ok(i));
                    assert(self.child(i) == other.child(i));
                    assert(self.child(i + 1) == other.child(i + 1));
                }
                assert forall|i: int, j: int| 0 <= i < j <= node.num_keys implies #[trigger] other.child(
                    i,
                ) != #[trigger] other.child(j) by {
                    assert(self.child(i) != self.child(j));
                }
            }
        }
    }

    /// Tables with the same pages are well-formed together.
    pub proof fn lemma_wf_same(&self, other: &Table)
        requires
            other.same_pages(self),
            self.pager.wf(),
            other.pager.wf(),
        ensures
            self.wf() == other.wf(),
    {
        assert forall|n: int| #[trigger] self.pager.page(n) == other.pager.page(n) by {
            assert(other.pager.page(n) == self.pager.page(n));
        }
        self.lemma_same_pages(other);
        other.lemma_same_pages(self);
    }

    /// Being the same pages is transitive.
    pub proof fn lemma_same_pages_trans(&self, mid: &Table, last: &Table)
        requires
            self.same_pages(mid),
            mid.same_pages(last),
        ensures
            self.same_pages(last),
    {
        assert forall|n: int| #[trigger] self.pager.page(n) == last.pager.page(n) by {
            assert(mid.pager.page(n) == last.pager.page(n));
        }
    }

    /// Over the same pages, the same children are leaves of the tree.
    pub proof fn lemma_child_ok_same(&self, other: &Table, i: int)
        requires
            self.same_pages(other),
        ensures
            self.child_ok(i) == other.child_ok(i),
    {
        assert(self.root() == other.root());
        assert(self.pager.page(self.child(i) as int) == other.pager.page(self.child(i) as int));
        assert(self.pager.page(self.child(i + 1) as int) == other.pager.page(
            self.child(i + 1) as int,
        ));
    }

    /// A table with the same root and the same leaves as a well-formed one,
    /// all on pages in use, is the same tree with the same contents.
    pub proof fn lemma_same_tree(&self, other: &Table)
        requires
            self.wf(),
            other.pager.wf(),
            other.root_page_num == 0,
            1 <= other.pager.num_pages <= MAX_PAGES,
            other.pager.file_pages() <= other.pager.num_pages,
            other.root() == self.root(),
            forall|p: usize|
                self.leaves().contains(p) ==> p < other.pager.num_pages && other.pager.page(
                    p as int,
                ) == self.pager.page(p as int),
        ensures
            other.wf(),
            other.leaves() == self.leaves(),
            other.cells_by_leaf() == self.cells_by_leaf(),
            other.contents() == self.contents(),
    {
        assert(self.leaves() =~= other.leaves());
        assert forall|i: int| 0 <= i < self.leaves().len() implies other.pager.page(
            self.leaves()[i] as int,
        ) == self.pager.page(self.leaves()[i] as int) && self.leaves()[i]
            < other.pager.num_pages by {
            assert(self.leaves().contains(self.leaves()[i]));
        }
        assert(self.cells_by_leaf() =~= other.cells_by_leaf());
        if self.branching() {
            let node = internal_of(self.root());
            assert forall|i: int| 0 <= i <= node.num_keys implies #[trigger] other.child_ok(i) by {
                assert(self.child_ok(i));
                assert(self.child(i) == other.child(i));
                assert(self.leaves()[i] == self.child(i));
                if i < node.num_keys {
                    assert(self.child(i + 1) == other.child(i + 1));
                    assert(self.leaves()[i + 1] == self.child(i + 1));
                }
            }
            assert forall|i: int, j: int| 0 <= i < j <= node.num_keys implies #[trigger] other.child(
                i,
            ) != #[trigger] other.child(j) by {
                assert(self.child(i) != self.child(j));
            }
        }
    }

    /// The separators of a well-formed root are strictly increasing.
    pub proof fn lemma_keys_increasing(&self)
        requires
            self.wf(),
            self.branching(),
        ensures
            strictly_increasing(
                internal_of(self.root()).keys,
                internal_of(self.root()).num_keys as int,
            ),
    {
        let node = internal_of(self.root());
        let n = node.num_keys as int;
        assert forall|i: int| 0 <= i && i + 1 < n implies node.keys[i] < #[trigger] node.keys[i + 1] by {
            assert(self.child_ok(i));
            assert(self.child_ok(i + 1));
            let next = leaf_of(self.pager.page(self.child(i + 1) as int));
            assert(next.keys[0] <= next.keys[next.num_cells - 1]);
        }
        assert forall|i: int, j: int| 0 <= i < j < n implies node.keys[i] < node.keys[j] by {
            lemma_increasing_steps(node.keys, n, i, j);
        }
    }

    /// The leaf with the index `slot` among the leaves of a well-formed
    /// table is a well-formed leaf on a page in use; where there is more
    /// than one leaf, none is empty, and each but the last is followed by
    /// its sibling.
    pub proof fn lemma_leaf(&self, slot: int)
        requires
            self.wf(),
            0 <= slot < self.leaves().len(),
        ensures
            self.leaves()[slot] < self.pager.num_pages,
            leaf_ok(self.pager.page(self.leaves()[slot] as int)),
            self.cells_by_leaf()[slot] == self.cells_of(slot),
            self.cells_of(slot).len() == leaf_of(
                self.pager.page(self.leaves()[slot] as int),
            ).num_cells,
            sorted_cells(self.cells_of(slot)),
            self.leaves().len() > 1 ==> self.cells_of(slot).len() > 0,
            slot + 1 < self.leaves().len() ==> {
                &&& leaf_of(self.pager.page(self.leaves()[slot] as int)).next_leaf
                    == self.leaves()[slot + 1]
                &&& self.leaves()[slot + 1] != 0
                &&& self.cells_of(slot).last().0 < self.cells_of(slot + 1)[0].0
                &&& self.cells_of(slot + 1).len() > 0
            },
            slot + 1 == self.leaves().len() ==> leaf_of(
                self.pager.page(self.leaves()[slot] as int),
            ).next_leaf == 0,
    {
        if self.branching() {
            assert(self.child_ok(slot));
            if slot + 1 < self.leaves().len() {
                assert(self.child_ok(slot + 1));
            }
        }
    }

    /// The contents of a well-formed table are sorted by key, without
    /// duplicates, and each cell holds the record of its key.
    pub proof fn lemma_contents_sorted(&self)
        requires
            self.wf(),
        ensures
            sorted_cells(self.contents()),
            forall|g: int|
                0 <= g < self.contents().len() ==> (#[trigger] self.contents()[g]).0
                    == key_of_value(self.contents()[g].1),
    {
        let chunks = self.cells_by_leaf();
        assert forall|i: int| 0 <= i < chunks.len() implies sorted_cells(#[trigger] chunks[i]) by {
            self.lemma_leaf(i);
        }
        assert forall|i: int| 0 <= i < chunks.len() && chunks.len() > 1 implies (
        #[trigger] chunks[i]).len() > 0 by {
            self.lemma_leaf(i);
        }
        assert forall|i: int| 0 <= i && i + 1 < chunks.len() implies (#[trigger] chunks[i]).last().0
            < chunks[i + 1][0].0 by {
            self.lemma_leaf(i);
            self.lemma_leaf(i + 1);
        }
        lemma_flatten_sorted(chunks);
        assert forall|g: int| 0 <= g < self.contents().len() implies (
        #[trigger] self.contents()[g]).0 == key_of_value(self.contents()[g].1) by {
            self.lemma_locate(g);
        }
    }

    /// Every cell of the contents is a cell of one of the leaves.
    pub proof fn lemma_locate(&self, g: int)
        requires
            self.wf(),
            0 <= g < self.contents().len(),
        ensures
            exists|slot: int, c: int|
                {
                    &&& 0 <= slot < self.leaves().len()
                    &&& 0 <= c < self.cells_of(slot).len()
                    &&& g == len_before(self.cells_by_leaf(), slot) + c
                    &&& self.contents()[g] == #[trigger] self.cells_of(slot)[c]
                    &&& self.contents()[g].0 == key_of_value(self.contents()[g].1)
                },
    {
        lemma_len_before_ends(self.cells_by_leaf());
        self.lemma_locate_below(g, self.leaves().len() as int);
    }

    /// Every cell among the first `len_before(k)` cells of the contents is a
    /// cell of one of the first `k` leaves.
    proof fn lemma_locate_below(&self, g: int, k: int)
        requires
            self.wf(),
            0 <= k <= self.leaves().len(),
            0 <= g < len_before(self.cells_by_leaf(), k),
        ensures
            g < self.contents().len(),
            exists|slot: int, c: int|
                {
                    &&& 0 <= slot < self.leaves().len()
                    &&& 0 <= c < self.cells_of(slot).len()
                    &&& g == len_before(self.cells_by_leaf(), slot) + c
                    &&& self.contents()[g] == #[trigger] self.cells_of(slot)[c]
                    &&& self.contents()[g].0 == key_of_value(self.contents()[g].1)
                },
        decreases k,
    {
        let chunks = self.cells_by_leaf();
        lemma_len_before_ends(chunks);
        if k == 0 {
        } else {
            lemma_flatten_around(chunks, k - 1);
            self.lemma_leaf(k - 1);
            if g < len_before(chunks, k - 1) {
                self.lemma_locate_below(g, k - 1);
            } else {
                let c = g - len_before(chunks, k - 1);
                lemma_flatten_index(chunks, k - 1, c);
                assert(self.contents()[g] == self.cells_of(k - 1)[c]);
            }
        }
    }

    /// Where `key` belongs in a well-formed table: in a leaf of the tree, at
    /// a cell below which every key of the whole tree's left part is smaller
    /// and from which on every key is at least as large. The key is stored
    /// exactly if that cell is in use and holds it.
    #[verifier::rlimit(40)]
    pub proof fn lemma_target(&self, key: usize)
        requires
            self.wf(),
        ensures
            0 <= self.leaf_slot(key) < self.leaves().len(),
            self.target(key) == self.leaf_from(key, 0),
            self.target(key) < self.pager.num_pages,
            self.branching() ==> self.target(key) >= 1 && lower_bound(
                internal_of(self.root()).keys,
                internal_of(self.root()).num_keys as int,
                key,
                self.leaf_slot(key),
            ),
            leaf_ok(self.pager.page(self.target(key) as int)),
            lower_bound(
                self.target_leaf(key).keys,
                self.target_leaf(key).num_cells as int,
                key,
                self.target_cell(key),
            ),
            0 <= self.rank(key) <= self.contents().len(),
            self.contains_key(key) <==> (self.target_cell(key) < self.target_leaf(key).num_cells
                && self.target_leaf(key).keys[self.target_cell(key)] == key),
    {
        let slot = self.leaf_slot(key);
        if self.branching() {
            self.lemma_keys_increasing();
            lemma_slot_is_lower_bound(
                internal_of(self.root()).keys,
                internal_of(self.root()).num_keys as int,
                key,
            );
            assert(self.child_ok(slot));
        }
        self.lemma_leaf(slot);
        let leaf = self.target_leaf(key);
        let n = leaf.num_cells as int;
        let c = self.target_cell(key);
        lemma_slot_is_lower_bound(leaf.keys, n, key);
        let chunks = self.cells_by_leaf();
        lemma_flatten_around(chunks, slot);
        lemma_len_before_ends(chunks);
        if c < n && leaf.keys[c] == key {
            lemma_flatten_index(chunks, slot, c);
            assert(self.contents()[len_before(chunks, slot) + c].0 == key);
        }
        if self.contains_key(key) {
            let g = choose|g: int| 0 <= g < self.contents().len() && self.contents()[g].0 == key;
            self.lemma_stored_key(key, g);
        }
    }

    /// A key that is stored in the cell `g` of the contents is stored in the
    /// cell of its leaf that `target_cell` gives.
    #[verifier::rlimit(40)]
    pub proof fn lemma_stored_key(&self, key: usize, g: int)
        requires
            self.wf(),
            0 <= g < self.contents().len(),
            self.contents()[g].0 == key,
        ensures
            self.target_cell(key) < self.target_leaf(key).num_cells,
            self.target_leaf(key).keys[self.target_cell(key)] == key,
    {
        self.lemma_locate(g);
        let (at, k) = choose|at: int, k: int|
            {
                &&& 0 <= at < self.leaves().len()
                &&& 0 <= k < self.cells_of(at).len()
                &&& g == len_before(self.cells_by_leaf(), at) + k
                &&& self.contents()[g] == #[trigger] self.cells_of(at)[k]
                &&& self.contents()[g].0 == key_of_value(self.contents()[g].1)
            };
        self.lemma_leaf(at);
        let found = leaf_of(self.pager.page(self.leaves()[at] as int));
        assert(found.keys[k] == key);
        self.lemma_slot_of_leaf(key, at, k);
        assert(lower_bound(found.keys, found.num_cells as int, key, k)) by {
            assert forall|j: int| 0 <= j < k implies found.keys[j] < key by {
                assert(found.keys[j] < found.keys[k]);
            }
            assert forall|j: int| k <= j < found.num_cells implies key <= found.keys[j] by {
                if k < j {
                    assert(found.keys[k] < found.keys[j]);
                }
            }
        }
        lemma_lower_bound_is_slot(found.keys, found.num_cells as int, key, k);
    }

    /// A key that is stored in the leaf with the index `at` among the leaves
    /// belongs in that leaf.
    #[verifier::rlimit(40)]
    pub proof fn lemma_slot_of_leaf(&self, key: usize, at: int, k: int)
        requires
            self.wf(),
            0 <= at < self.leaves().len(),
            0 <= k < leaf_of(self.pager.page(self.leaves()[at] as int)).num_cells,
            leaf_of(self.pager.page(self.leaves()[at] as int)).keys[k] == key,
        ensures
            self.leaf_slot(key) == at,
    {
        let found = leaf_of(self.pager.page(self.leaves()[at] as int));
        if self.branching() {
            self.lemma_keys_increasing();
            let node = internal_of(self.root());
            let n = node.num_keys as int;
            assert(self.child_ok(at));
            assert forall|j: int| 0 <= j < at implies node.keys[j] < key by {
                assert(self.child_ok(at - 1));
                if j < at - 1 {
                    assert(node.keys[j] < node.keys[at - 1]);
                }
                assert(node.keys[at - 1] < found.keys[0]);
                if k > 0 {
                    assert(found.keys[0] < found.keys[k]);
                }
            }
            assert forall|j: int| at <= j < n implies key <= node.keys[j] by {
                if k < found.num_cells - 1 {
                    assert(found.keys[k] < found.keys[found.num_cells - 1]);
                }
                assert(node.keys[at] == found.keys[found.num_cells - 1]);
                if at < j {
                    assert(node.keys[at] < node.keys[j]);
                }
            }
            assert(lower_bound(node.keys, n, key, at));
            lemma_lower_bound_is_slot(node.keys, n, key, at);
        }
    }

    /// The tree of a well-formed table can be shown from its root.
    pub proof fn lemma_printable(&self)
        requires
            self.wf(),
        ensures
            self.pager.printable(self.root_page_num as int),
    {
        lemma_layout();
        if self.branching() {
            let node = internal_of(self.root());
            assert forall|i: int| 0 <= i <= node.num_keys implies {
                let child = self.pager.page(#[trigger] node.child(i) as int);
                &&& node.child(i) < MAX_PAGES
                &&& header_of(child).node_type == NodeType::Leaf
                &&& leaf_of(child).num_cells <= LEAF_MAX_CELLS
            } by {
                assert(self.child_ok(i));
            }
        }
    }
}

} // verus!
