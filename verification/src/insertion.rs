//! What an insert makes of a tree: a record put into its leaf, or a full
//! leaf split in two with the tree above it mended.

use crate::bytes::splice;
use crate::chunks::{
    lemma_flatten_cut, lemma_flatten_index, lemma_flatten_insert, lemma_insert_sorted,
    lemma_len_before_ends, sorted_cells,
};
use crate::error::Error;
use crate::page::{
    blank_page, header_of, internal_of, leaf_of, lemma_layout, lemma_lower_bound_is_slot,
    lower_bound, max_key_of, shifted_up, slot_of, strictly_increasing, Header, InternalView,
    NodeType, INTERNAL_CELL_CAPACITY, INTERNAL_MAX_CELLS, IS_ROOT_OFFSET, LEAF_LEFT_SPLIT_COUNT,
    LEAF_MAX_CELLS, LEAF_RIGHT_SPLIT_COUNT, PARENT_OFFSET,
};
use crate::pager::MAX_PAGES;
use crate::row::{decodable, lemma_codec_round_trip, RowView};
use crate::table::Table;
use crate::tree::{has_max_key, key_of_value, leaf_cells, leaf_ok, lemma_leaf_cells, lemma_leaf_ok};
use vstd::bytes::spec_u64_to_le_bytes;
use vstd::prelude::*;

verus! {

/// The leaf with the bytes `after` is the leaf with the bytes `before` with
/// `cell` put in at `c`, and nothing else about it changed.
pub open spec fn leaf_with(
    before: Seq<u8>,
    after: Seq<u8>,
    c: int,
    cell: (usize, Seq<u8>),
) -> bool {
    &&& header_of(after) == header_of(before)
    &&& leaf_of(after).num_cells == leaf_of(before).num_cells + 1
    &&& leaf_of(after).next_leaf == leaf_of(before).next_leaf
    &&& leaf_cells(after) == leaf_cells(before).insert(c, cell)
}

impl Table {
    /// The leaf in which `key` lives or would have to be inserted has no
    /// cell left.
    pub open spec fn target_full(&self, key: usize) -> bool {
        self.target_leaf(key).num_cells >= LEAF_MAX_CELLS
    }

    /// Why a record whose key `key` is not stored cannot be put in, if it
    /// cannot. There is room as long as the leaf of `key` has a cell left.
    /// A full leaf is split, which takes a fresh page; a full root leaf
    /// takes a second one for the new root's left child. A full leaf below
    /// the root needs room for one more key in the root, which is never
    /// split.
    pub open spec fn place_error(&self, key: usize) -> Option<Error> {
        if !self.target_full(key) {
            None
        } else if self.pager.num_pages >= MAX_PAGES {
            Some(Error::PageOutOfBounds(self.pager.num_pages))
        } else if !self.branching() {
            if self.pager.num_pages + 1 >= MAX_PAGES {
                Some(Error::PageOutOfBounds((self.pager.num_pages + 1) as usize))
            } else {
                None
            }
        } else if internal_of(self.root()).num_keys + 1 > INTERNAL_MAX_CELLS {
            Some(Error::InternalSplit)
        } else {
            None
        }
    }

    /// Why a record with the key `key` cannot be inserted, if it cannot: its
    /// key is stored already, or there is no place for it.
    pub open spec fn insert_error(&self, key: usize) -> Option<Error> {
        if self.contains_key(key) {
            Some(Error::DuplicateKey(key))
        } else {
            self.place_error(key)
        }
    }

    /// What inserting the record `value` under the key `key` does to the
    /// pages. A leaf with a cell left gets the record at the cell of `key`,
    /// and no other page changes. A full leaf is split around the record as
    /// `split_of` says; then a root leaf gets a new root above its halves as
    /// `new_root_effect` says, and under a root the root takes the upper
    /// half as `split_shape` says.
    pub open spec fn placed(&self, after: &Table, key: usize, value: Seq<u8>) -> bool {
        if self.target_full(key) {
            exists|mid: Table|
                #[trigger] self.split_of(&mid, key, value) && if self.branching() {
                    self.split_shape(&mid, after, key)
                } else {
                    mid.new_root_effect(after, self.pager.num_pages)
                }
        } else {
            &&& leaf_with(
                self.pager.page(self.target(key) as int),
                after.pager.page(self.target(key) as int),
                self.target_cell(key),
                (key, value),
            )
            &&& forall|m: int|
                m != self.target(key) ==> #[trigger] after.pager.page(m) == self.pager.page(m)
        }
    }

    /// The table `after` is what inserting the record `value` under the key
    /// `key` makes of this table: a well-formed table over the same file
    /// with the record put into the contents at its place, and with one
    /// more leaf if the leaf of `key` was full; and the pages are what
    /// `placed` says.
    pub open spec fn inserted(&self, after: &Table, key: usize, value: Seq<u8>) -> bool {
        &&& self.placed(after, key, value)
        &&& after.wf()
        &&& after.pager.file@ == self.pager.file@
        &&& after.contents() == self.contents().insert(self.rank(key), (key, value))
        &&& after.leaves().len() == self.leaves().len() + if self.target_full(key) {
            1int
        } else {
            0int
        }
        &&& after.pager.num_pages == self.pager.num_pages + self.pages_taken(key)
    }

    /// The table `after` is what an insert of the record `value` under the
    /// key `key` that failed with the error `e` has left of this table. A
    /// key that is stored already, and a cache without a slot for the upper
    /// half of a full leaf, leave every page as it is. Later failures leave
    /// the leaf split and the tree above it not mended, or half mended.
    pub open spec fn insert_failed(&self, after: &Table, key: usize, value: Seq<u8>, e: Error) -> bool {
        match e {
            Error::DuplicateKey(_) => after.wf() && after.same_pages(self),
            Error::PageOutOfBounds(page_num) => if page_num == self.pager.num_pages {
                after.wf() && after.same_pages(self)
            } else {
                self.split_of(after, key, value)
            },
            Error::InternalSplit => exists|mid: Table, par: Table|
                {
                    &&& #[trigger] self.split_of(&mid, key, value)
                    &&& #[trigger] self.separator_lowered(&mid, &par, key)
                    &&& par.internal_insert_effect(after, 0, self.pager.num_pages)
                },
            _ => true,
        }
    }

    /// The number of fresh pages that inserting a record under the key `key`
    /// takes: none while the leaf of `key` has a cell left, else one for the
    /// upper half of the leaf, and one more for the lower half of a root.
    pub open spec fn pages_taken(&self, key: usize) -> int {
        if !self.target_full(key) {
            0
        } else if self.branching() {
            1
        } else {
            2
        }
    }

    /// The cells of the leaf of `key` with the record `(key, value)` put in
    /// at its cell.
    pub open spec fn cells_with(&self, key: usize, value: Seq<u8>) -> Seq<(usize, Seq<u8>)> {
        leaf_cells(self.pager.page(self.target(key) as int)).insert(
            self.target_cell(key),
            (key, value),
        )
    }

    /// The table `mid` is this table after the full leaf on the page `left`
    /// has been split around the cell `cell`, put in at `c`, and before
    /// anything above the leaf has been changed: the leaf keeps the lower
    /// cells, the fresh page `self.pager.num_pages` holds the upper cells
    /// under the leaf's parent, and the leaf's sibling is now the fresh
    /// page, whose sibling is the leaf's old one. No other page changes.
    pub open spec fn split_at(
        &self,
        mid: &Table,
        left: usize,
        c: int,
        cell: (usize, Seq<u8>),
    ) -> bool {
        let right = self.pager.num_pages as int;
        let before = self.pager.page(left as int);
        let all = leaf_cells(before).insert(c, cell);
        &&& mid.pager.wf()
        &&& mid.root_page_num == self.root_page_num
        &&& mid.pager.num_pages == self.pager.num_pages + 1
        &&& mid.pager.file@ == self.pager.file@
        &&& mid.pager.resident(left as int)
        &&& forall|m: int|
            m != left && m != right ==> #[trigger] mid.pager.page(m) == self.pager.page(m)
        &&& header_of(mid.pager.page(left as int)) == header_of(before)
        &&& leaf_of(mid.pager.page(left as int)).num_cells == LEAF_LEFT_SPLIT_COUNT
        &&& leaf_of(mid.pager.page(left as int)).next_leaf == right
        &&& leaf_cells(mid.pager.page(left as int)) == all.subrange(
            0,
            LEAF_LEFT_SPLIT_COUNT as int,
        )
        &&& header_of(mid.pager.page(right)) == (Header {
            node_type: NodeType::Leaf,
            is_root: false,
            parent: header_of(before).parent,
        })
        &&& leaf_of(mid.pager.page(right)).num_cells == LEAF_RIGHT_SPLIT_COUNT
        &&& leaf_of(mid.pager.page(right)).next_leaf == leaf_of(before).next_leaf
        &&& leaf_cells(mid.pager.page(right)) == all.subrange(
            LEAF_LEFT_SPLIT_COUNT as int,
            LEAF_MAX_CELLS + 1,
        )
    }

    /// The full leaf on the page `left` can be split around a cell put in at
    /// `c`, and the tree above it mended: the leaf lies on a page in use,
    /// and a leaf flagged as root is page 0; under a parent, the parent is
    /// an internal node on another page, with room for one more key, and
    /// its right child, if it is another page, holds a cell.
    pub open spec fn can_split(&self, left: usize, c: usize) -> bool {
        let leaf = self.pager.page(left as int);
        let parent = header_of(leaf).parent;
        let node = internal_of(self.pager.page(parent as int));
        &&& self.pager.wf()
        &&& self.root_page_num == 0
        &&& self.pager.file_pages() <= self.pager.num_pages
        &&& 0 < self.pager.num_pages
        &&& left != self.pager.num_pages
        &&& left < MAX_PAGES ==> {
            &&& header_of(leaf).node_type == NodeType::Leaf
            &&& leaf_of(leaf).num_cells == LEAF_MAX_CELLS
            &&& c <= LEAF_MAX_CELLS
            &&& header_of(leaf).is_root ==> left == 0
            &&& !header_of(leaf).is_root && parent < MAX_PAGES ==> {
                &&& parent != left
                &&& parent != self.pager.num_pages
                &&& header_of(self.pager.page(parent as int)).node_type == NodeType::Internal
                &&& node.num_keys < INTERNAL_CELL_CAPACITY
                &&& node.right_child != parent
                &&& node.right_child < MAX_PAGES && node.right_child != left && node.right_child
                    != self.pager.num_pages ==> has_max_key(
                    self.pager.page(node.right_child as int),
                )
            }
        }
    }

    /// The table `after` is this table with a fresh, empty leaf on the first
    /// page that was not in use, which is all that a split has done when it
    /// finds the leaf to split outside the cache.
    pub open spec fn fresh_leaf_made(&self, after: &Table) -> bool {
        let right = self.pager.num_pages as int;
        &&& after.pager.num_pages == right + 1
        &&& after.pager.page(right) == blank_page(1)
        &&& forall|m: int| m != right ==> #[trigger] after.pager.page(m) == self.pager.page(m)
    }

    /// The table `par` is this table with one key of the internal node on
    /// the page `parent` overwritten by `new_key`, as `internal_update_key`
    /// does it: among strictly increasing keys, the key in the slot of
    /// `old_key`.
    pub open spec fn key_lowered(
        &self,
        par: &Table,
        parent: usize,
        old_key: usize,
        new_key: usize,
    ) -> bool {
        let node = internal_of(self.pager.page(parent as int));
        let lowered = internal_of(par.pager.page(parent as int));
        &&& par.pager.wf()
        &&& par.root_page_num == self.root_page_num
        &&& par.pager.num_pages == self.pager.num_pages
        &&& par.pager.file@ == self.pager.file@
        &&& forall|m: int| m != parent ==> #[trigger] par.pager.page(m) == self.pager.page(m)
        &&& header_of(par.pager.page(parent as int)) == header_of(
            self.pager.page(parent as int),
        )
        &&& lowered == (InternalView { keys: lowered.keys, ..node })
        &&& strictly_increasing(node.keys, node.num_keys as int) ==> lowered.keys
            == node.keys.update(slot_of(node.keys, node.num_keys as int, old_key), new_key)
    }

    /// How `internal_insert` ends, and what it makes of this table, when the
    /// pages `parent` and `child` lie in the cache.
    pub open spec fn child_put(
        &self,
        after: &Table,
        parent: usize,
        child: usize,
        res: Result<(), Error>,
    ) -> bool {
        let node = internal_of(self.pager.page(parent as int));
        if node.num_keys + 1 > INTERNAL_MAX_CELLS {
            res == Err::<(), Error>(Error::InternalSplit) && self.internal_insert_effect(
                after,
                parent,
                child,
            )
        } else if node.right_child >= MAX_PAGES {
            res == Err::<(), Error>(Error::PageOutOfBounds(node.right_child))
                && self.keys_raised(after, parent)
        } else {
            res is Ok && self.internal_insert_effect(after, parent, child)
        }
    }

    /// How the tree above a leaf that has just been split is mended, where
    /// this table is the table after the split: `left` is the page of the
    /// leaf, `right` the page of its upper half, `old_max` the last key that
    /// the leaf held. A leaf flagged as root gets a new root; any other has
    /// its key in its parent lowered to its new last key, and the parent
    /// takes the upper half as one more child.
    pub open spec fn mended(
        &self,
        after: &Table,
        left: usize,
        right: usize,
        old_max: usize,
        res: Result<(), Error>,
    ) -> bool {
        let leaf = self.pager.page(left as int);
        let parent = header_of(leaf).parent;
        if header_of(leaf).is_root {
            if self.pager.num_pages >= MAX_PAGES {
                res == Err::<(), Error>(Error::PageOutOfBounds(self.pager.num_pages)) && *after
                    == *self
            } else {
                res is Ok && self.new_root_effect(after, right)
            }
        } else if parent >= MAX_PAGES {
            res == Err::<(), Error>(Error::PageOutOfBounds(parent)) && *after == *self
        } else {
            exists|par: Table|
                #[trigger] self.key_lowered(&par, parent, old_max, max_key_of(leaf))
                    && par.child_put(after, parent, right, res)
        }
    }

    /// How `leaf_split_and_insert` ends, and what it makes of this table,
    /// for the leaf on the page `left` and the cell `cell` put in at `c`.
    /// Without a slot in the cache for a fresh page nothing is done.
    /// Otherwise the leaf is split as `split_at` says, and the tree above it
    /// is mended as `mended` says.
    pub open spec fn split_outcome(
        &self,
        after: &Table,
        left: usize,
        c: int,
        cell: (usize, Seq<u8>),
        res: Result<(), Error>,
    ) -> bool {
        if self.pager.num_pages >= MAX_PAGES {
            res == Err::<(), Error>(Error::PageOutOfBounds(self.pager.num_pages)) && *after
                == *self
        } else if left >= MAX_PAGES {
            res == Err::<(), Error>(Error::PageOutOfBounds(left)) && self.fresh_leaf_made(after)
        } else {
            exists|mid: Table|
                #[trigger] self.split_at(&mid, left, c, cell) && mid.mended(
                    after,
                    left,
                    self.pager.num_pages,
                    max_key_of(self.pager.page(left as int)),
                    res,
                )
        }
    }

    /// The table `mid` is this table after the full leaf of `key` has been
    /// split around the record `(key, value)`, put in at the cell of `key`,
    /// as `split_at` says.
    pub open spec fn split_of(&self, mid: &Table, key: usize, value: Seq<u8>) -> bool {
        &&& self.split_at(mid, self.target(key), self.target_cell(key), (key, value))
        &&& mid.root_page_num == 0
    }

    /// What `new_root` does to a table: `after` is this table with its root
    /// moved to a fresh page as the left child, the page `right` made the
    /// right child, and page 0 made the internal node over the two.
    pub open spec fn new_root_effect(&self, after: &Table, right: usize) -> bool {
        let left = self.pager.num_pages as int;
        let old_root = self.root();
        let old_right = self.pager.page(right as int);
        let new_root = after.root();
        let new_left = after.pager.page(left);
        let new_right = after.pager.page(right as int);
        &&& after.pager.num_pages == left + 1
        &&& new_left == splice(
            old_root.update(IS_ROOT_OFFSET as int, 0u8),
            PARENT_OFFSET as int,
            spec_u64_to_le_bytes(0),
        )
        &&& header_of(new_left) == (Header { is_root: false, parent: 0, ..header_of(old_root) })
        &&& leaf_of(new_left) == leaf_of(old_root)
        &&& internal_of(new_left) == internal_of(old_root)
        &&& new_right == splice(old_right, PARENT_OFFSET as int, spec_u64_to_le_bytes(0))
        &&& header_of(new_right) == (Header { parent: 0, ..header_of(old_right) })
        &&& leaf_of(new_right) == leaf_of(old_right)
        &&& internal_of(new_right) == internal_of(old_right)
        &&& header_of(new_root) == (Header {
            node_type: NodeType::Internal,
            is_root: true,
            parent: 0,
        })
        &&& internal_of(new_root).num_keys == 1
        &&& internal_of(new_root).children[0] == left
        &&& internal_of(new_root).keys[0] == max_key_of(old_root)
        &&& internal_of(new_root).right_child == right
        &&& forall|m: int|
            m != 0 && m != left && m != right ==> #[trigger] after.pager.page(m)
                == self.pager.page(m)
    }

    /// The table `par` is the table `mid` after the separator of the split
    /// leaf of `key` in the root has been brought down to the leaf's new
    /// last key.
    pub open spec fn separator_lowered(&self, mid: &Table, par: &Table, key: usize) -> bool {
        let node = internal_of(self.root());
        let old_max = max_key_of(self.pager.page(self.target(key) as int));
        let new_max = max_key_of(mid.pager.page(self.target(key) as int));
        &&& par.pager.wf()
        &&& par.root_page_num == 0
        &&& par.pager.num_pages == mid.pager.num_pages
        &&& par.pager.file@ == mid.pager.file@
        &&& forall|m: int| m != 0 ==> #[trigger] par.pager.page(m) == mid.pager.page(m)
        &&& header_of(par.root()) == header_of(mid.root())
        &&& internal_of(par.root()) == (InternalView {
            keys: node.keys.update(slot_of(node.keys, node.num_keys as int, old_max), new_max),
            ..node
        })
    }

    /// The table `after` is this table with the root copied to a fresh page
    /// as a child of the root, which is all that `new_root` has done when it
    /// finds the right child outside the cache.
    pub open spec fn left_child_made(&self, after: &Table) -> bool {
        let left = self.pager.num_pages as int;
        &&& after.pager.num_pages == left + 1
        &&& after.pager.page(left) == splice(
            self.root().update(IS_ROOT_OFFSET as int, 0u8),
            PARENT_OFFSET as int,
            spec_u64_to_le_bytes(0),
        )
        &&& forall|m: int| m != left ==> #[trigger] after.pager.page(m) == self.pager.page(m)
    }

    /// The table `after` is this table with the number of keys of the
    /// internal node on the page `parent` raised by one, which is all that
    /// `internal_insert` has done when it finds the right child outside the
    /// cache.
    pub open spec fn keys_raised(&self, after: &Table, parent: usize) -> bool {
        let node = internal_of(self.pager.page(parent as int));
        &&& forall|m: int| m != parent ==> #[trigger] after.pager.page(m) == self.pager.page(m)
        &&& header_of(after.pager.page(parent as int)) == header_of(
            self.pager.page(parent as int),
        )
        &&& internal_of(after.pager.page(parent as int)) == (InternalView {
            num_keys: (node.num_keys + 1) as usize,
            ..node
        })
    }

    /// What `internal_insert` does to a table: only the page `parent`
    /// changes, and of it only the cells and counters of the internal node.
    pub open spec fn internal_insert_effect(
        &self,
        after: &Table,
        parent: usize,
        child: usize,
    ) -> bool {
        let node = internal_of(self.pager.page(parent as int));
        let grown = internal_of(after.pager.page(parent as int));
        let n = node.num_keys as int;
        let child_max = max_key_of(self.pager.page(child as int));
        let right_max = max_key_of(self.pager.page(node.right_child as int));
        let slot = slot_of(node.keys, n, child_max);
        &&& after.pager.wf()
        &&& after.root_page_num == self.root_page_num
        &&& after.pager.file == self.pager.file
        &&& after.pager.num_pages == self.pager.num_pages
        &&& forall|m: int| m != parent ==> #[trigger] after.pager.page(m) == self.pager.page(m)
        &&& header_of(after.pager.page(parent as int)) == header_of(
            self.pager.page(parent as int),
        )
        &&& n + 1 > INTERNAL_MAX_CELLS ==> grown == (InternalView {
            num_keys: (n + 1) as usize,
            ..node
        })
        &&& n + 1 <= INTERNAL_MAX_CELLS && child_max > right_max ==> grown == (InternalView {
            num_keys: (n + 1) as usize,
            right_child: child,
            children: node.children.update(n, node.right_child),
            keys: node.keys.update(n, right_max),
        })
        &&& n + 1 <= INTERNAL_MAX_CELLS && child_max <= right_max && strictly_increasing(
            node.keys,
            n,
        ) ==> grown == (InternalView {
            num_keys: (n + 1) as usize,
            right_child: node.right_child,
            children: shifted_up(node.children, slot, n).update(slot, child),
            keys: shifted_up(node.keys, slot, n).update(slot, child_max),
        })
    }

    /// The root of `after` is the root of this table with the leaf of `key`
    /// split in two: the fresh page `self.pager.num_pages` is the child
    /// after that leaf, with the leaf's old last key as its separator if it
    /// has one, and the leaf's separator is `new_max`. The leaf and the
    /// fresh page are as in `mid`, and every other page but the root is as
    /// in this table.
    pub open spec fn split_shape(&self, mid: &Table, after: &Table, key: usize) -> bool {
        let node = internal_of(self.root());
        let grown = internal_of(after.root());
        let n = node.num_keys as int;
        let s = self.leaf_slot(key);
        let left = self.target(key) as int;
        let right = self.pager.num_pages as int;
        let old_max = max_key_of(self.pager.page(left));
        let new_max = max_key_of(mid.pager.page(left));
        &&& after.pager.wf()
        &&& after.root_page_num == 0
        &&& after.pager.num_pages == self.pager.num_pages + 1
        &&& after.pager.file@ == self.pager.file@
        &&& header_of(after.root()) == header_of(self.root())
        &&& grown.num_keys == n + 1
        &&& forall|i: int|
            0 <= i <= n + 1 ==> #[trigger] after.child(i) == (if i <= s {
                self.child(i)
            } else if i == s + 1 {
                right as usize
            } else {
                self.child(i - 1)
            })
        &&& forall|i: int|
            0 <= i < n + 1 ==> #[trigger] grown.keys[i] == (if i < s {
                node.keys[i]
            } else if i == s {
                new_max
            } else if i == s + 1 {
                old_max
            } else {
                node.keys[i - 1]
            })
        &&& forall|m: int|
            m != 0 && m != left && m != right ==> #[trigger] after.pager.page(m)
                == self.pager.page(m)
        &&& after.pager.page(left) == mid.pager.page(left)
        &&& after.pager.page(right) == mid.pager.page(right)
    }
}

impl Table {
    /// Putting a record whose key is not stored into its leaf, at its cell,
    /// keeps the table well-formed and puts the record into the contents at
    /// its place.
    #[verifier::rlimit(40)]
    pub proof fn lemma_insert_in_place(&self, after: &Table, key: usize, value: Seq<u8>)
        requires
            self.wf(),
            !self.contains_key(key),
            key == key_of_value(value),
            self.target_leaf(key).num_cells < LEAF_MAX_CELLS,
            after.pager.wf(),
            after.root_page_num == 0,
            after.pager.num_pages == self.pager.num_pages,
            after.pager.file@ == self.pager.file@,
            forall|m: int|
                m != self.target(key) ==> #[trigger] after.pager.page(m) == self.pager.page(m),
            leaf_with(
                self.pager.page(self.target(key) as int),
                after.pager.page(self.target(key) as int),
                self.target_cell(key),
                (key, value),
            ),
        ensures
            after.wf(),
            after.contents() == self.contents().insert(self.rank(key), (key, value)),
            after.leaves() == self.leaves(),
    {
        self.lemma_target(key);
        let slot = self.leaf_slot(key);
        let target = self.target(key) as int;
        let c = self.target_cell(key);
        let old_leaf = leaf_of(self.pager.page(target));
        let new_leaf = leaf_of(after.pager.page(target));
        let n = old_leaf.num_cells as int;
        let old_cells = leaf_cells(self.pager.page(target));
        let new_cells = leaf_cells(after.pager.page(target));
        self.lemma_leaf(slot);
        assert forall|j: int| 0 <= j < c implies (#[trigger] old_cells[j]).0 < key by {
            assert(old_leaf.keys[j] < key);
        }
        assert forall|j: int| c <= j < n implies key < (#[trigger] old_cells[j]).0 by {
            assert(key <= old_leaf.keys[j]);
            if c < j {
                assert(old_leaf.keys[c] < old_leaf.keys[j]);
            }
        }
        lemma_insert_sorted(old_cells, c, (key, value));
        assert forall|i: int| 0 <= i <= n implies (#[trigger] new_leaf.keys[i]) == new_cells[i].0
            && new_leaf.values[i] == new_cells[i].1 by {}
        assert(leaf_ok(after.pager.page(target))) by {
            assert forall|i: int, j: int| 0 <= i < j < n + 1 implies new_leaf.keys[i]
                < new_leaf.keys[j] by {
                assert(new_cells[i].0 < new_cells[j].0);
            }
            assert forall|i: int| 0 <= i < n + 1 implies #[trigger] new_leaf.keys[i]
                == key_of_value(new_leaf.values[i]) by {
                if i < c {
                    assert(new_cells[i] == old_cells[i]);
                    assert(old_leaf.keys[i] == key_of_value(old_leaf.values[i]));
                } else if i > c {
                    assert(new_cells[i] == old_cells[i - 1]);
                    assert(old_leaf.keys[i - 1] == key_of_value(old_leaf.values[i - 1]));
                }
            }
        }
        if self.branching() {
            let node = internal_of(self.root());
            assert(after.root() == self.root());
            assert forall|i: int| 0 <= i <= node.num_keys implies #[trigger] after.child_ok(i) by {
                assert(self.child_ok(i));
                assert(after.child(i) == self.child(i));
                if i < node.num_keys {
                    assert(self.child_ok(i + 1));
                    assert(self.child(i) != self.child(i + 1));
                }
                if i == slot {
                    if i < node.num_keys {
                        assert(key <= node.keys[i]);
                        assert(old_leaf.keys[n - 1] == node.keys[i]);
                        assert(c < n);
                        assert(new_cells[n] == old_cells[n - 1]);
                    }
                } else if i + 1 == slot {
                    assert(node.keys[i] < key);
                    if c > 0 {
                        assert(new_cells[0] == old_cells[0]);
                    }
                    assert(new_leaf.keys[0] == new_cells[0].0);
                } else {
                    assert(self.child(i) != self.child(slot));
                    if i < node.num_keys {
                        assert(self.child(i + 1) != self.child(slot));
                    }
                }
            }
            assert forall|i: int, j: int| 0 <= i < j <= node.num_keys implies #[trigger] after.child(
                i,
            ) != #[trigger] after.child(j) by {
                assert(self.child(i) != self.child(j));
            }
        }
        assert(after.wf());
        let chunks = self.cells_by_leaf();
        assert(after.leaves() =~= self.leaves());
        assert(after.cells_by_leaf() =~= chunks.update(slot, chunks[slot].insert(c, (key, value))))
            by {
            assert forall|i: int| 0 <= i < chunks.len() && i != slot implies after.cells_by_leaf()[i]
                == chunks[i] by {
                if self.branching() {
                    assert(self.child(i) != self.child(slot));
                }
            }
        }
        lemma_flatten_insert(chunks, slot, c, (key, value));
    }

    /// What holds of the two halves of a split leaf: the cells around the
    /// new record are sorted and each the record of its key, and so each
    /// half is a well-formed leaf.
    #[verifier::rlimit(40)]
    pub proof fn lemma_split_halves(&self, mid: &Table, key: usize, value: Seq<u8>)
        requires
            self.wf(),
            !self.contains_key(key),
            key == key_of_value(value),
            self.target_leaf(key).num_cells == LEAF_MAX_CELLS,
            self.split_of(mid, key, value),
        ensures
            self.cells_with(key, value).len() == LEAF_MAX_CELLS + 1,
            sorted_cells(self.cells_with(key, value)),
            forall|i: int|
                0 <= i <= LEAF_MAX_CELLS ==> (#[trigger] self.cells_with(key, value)[i]).0
                    == key_of_value(self.cells_with(key, value)[i].1),
            leaf_ok(mid.pager.page(self.target(key) as int)),
            leaf_ok(mid.pager.page(self.pager.num_pages as int)),
            self.cells_with(key, value) == leaf_cells(mid.pager.page(self.target(key) as int))
                + leaf_cells(mid.pager.page(self.pager.num_pages as int)),
            max_key_of(mid.pager.page(self.target(key) as int)) == self.cells_with(
                key,
                value,
            )[LEAF_LEFT_SPLIT_COUNT - 1].0,
            max_key_of(mid.pager.page(self.pager.num_pages as int)) == self.cells_with(
                key,
                value,
            )[LEAF_MAX_CELLS as int].0,
            leaf_of(mid.pager.page(self.target(key) as int)).keys[0] == self.cells_with(
                key,
                value,
            )[0].0,
            leaf_of(mid.pager.page(self.pager.num_pages as int)).keys[0] == self.cells_with(
                key,
                value,
            )[LEAF_LEFT_SPLIT_COUNT as int].0,
    {
        lemma_layout();
        self.lemma_target(key);
        let slot = self.leaf_slot(key);
        let left = self.target(key) as int;
        let right = self.pager.num_pages as int;
        let c = self.target_cell(key);
        let old_leaf = leaf_of(self.pager.page(left));
        let old_cells = leaf_cells(self.pager.page(left));
        let all = self.cells_with(key, value);
        self.lemma_leaf(slot);
        lemma_leaf_ok(self.pager.page(left));
        assert forall|j: int| 0 <= j < c implies (#[trigger] old_cells[j]).0 < key by {
            assert(old_leaf.keys[j] < key);
        }
        assert forall|j: int| c <= j < old_cells.len() implies key < (#[trigger] old_cells[j]).0 by {
            assert(key <= old_leaf.keys[j]);
            if c < j {
                assert(old_leaf.keys[c] < old_leaf.keys[j]);
            }
        }
        lemma_insert_sorted(old_cells, c, (key, value));
        assert forall|i: int| 0 <= i <= LEAF_MAX_CELLS implies (#[trigger] all[i]).0
            == key_of_value(all[i].1) by {
            if i < c {
                assert(all[i] == old_cells[i]);
            } else if i > c {
                assert(all[i] == old_cells[i - 1]);
            }
        }
        let left_cells = leaf_cells(mid.pager.page(left));
        let right_cells = leaf_cells(mid.pager.page(right));
        lemma_leaf_cells(mid.pager.page(left));
        lemma_leaf_cells(mid.pager.page(right));
        assert(all =~= left_cells + right_cells);
        assert forall|i: int, j: int| 0 <= i < j < left_cells.len() implies left_cells[i].0
            < left_cells[j].0 by {
            assert(left_cells[i] == all[i]);
            assert(left_cells[j] == all[j]);
        }
        assert forall|i: int, j: int| 0 <= i < j < right_cells.len() implies right_cells[i].0
            < right_cells[j].0 by {
            assert(right_cells[i] == all[i + LEAF_LEFT_SPLIT_COUNT]);
            assert(right_cells[j] == all[j + LEAF_LEFT_SPLIT_COUNT]);
        }
        assert forall|i: int| 0 <= i < left_cells.len() implies (#[trigger] left_cells[i]).0
            == key_of_value(left_cells[i].1) by {
            assert(left_cells[i] == all[i]);
        }
        assert forall|i: int| 0 <= i < right_cells.len() implies (#[trigger] right_cells[i]).0
            == key_of_value(right_cells[i].1) by {
            assert(right_cells[i] == all[i + LEAF_LEFT_SPLIT_COUNT]);
        }
        lemma_leaf_ok(mid.pager.page(left));
        lemma_leaf_ok(mid.pager.page(right));
        assert(left_cells[LEAF_LEFT_SPLIT_COUNT - 1] == all[LEAF_LEFT_SPLIT_COUNT - 1]);
        assert(right_cells[LEAF_RIGHT_SPLIT_COUNT - 1] == all[LEAF_MAX_CELLS as int]);
        assert(left_cells[0] == all[0]);
        assert(right_cells[0] == all[LEAF_LEFT_SPLIT_COUNT as int]);
    }

    /// Splitting a full root leaf around a record whose key is not stored,
    /// and then growing a new root over the halves, keeps the table
    /// well-formed and puts the record into the contents at its place.
    #[verifier::rlimit(40)]
    pub proof fn lemma_split_root(&self, mid: &Table, after: &Table, key: usize, value: Seq<u8>)
        requires
            self.wf(),
            !self.branching(),
            !self.contains_key(key),
            key == key_of_value(value),
            self.target_leaf(key).num_cells == LEAF_MAX_CELLS,
            self.split_of(mid, key, value),
            mid.pager.num_pages < MAX_PAGES,
            after.pager.wf(),
            after.root_page_num == 0,
            after.pager.file@ == mid.pager.file@,
            mid.new_root_effect(after, self.pager.num_pages),
        ensures
            after.wf(),
            after.contents() == self.contents().insert(self.rank(key), (key, value)),
            after.leaves().len() == self.leaves().len() + 1,
            after.pager.num_pages == self.pager.num_pages + 2,
    {
        lemma_layout();
        self.lemma_target(key);
        self.lemma_split_halves(mid, key, value);
        let right = self.pager.num_pages as int;
        let left = mid.pager.num_pages as int;
        let all = self.cells_with(key, value);
        assert(self.target(key) == 0);
        assert(leaf_cells(after.pager.page(left)) == leaf_cells(mid.pager.page(0)));
        assert(leaf_cells(after.pager.page(right)) == leaf_cells(mid.pager.page(right)));
        let node = internal_of(after.root());
        assert(after.child(0) == left);
        assert(after.child(1) == right);
        assert(after.child_ok(0)) by {
            assert(sorted_cells(all));
            assert(all[LEAF_LEFT_SPLIT_COUNT - 1].0 < all[LEAF_LEFT_SPLIT_COUNT as int].0);
            assert(max_key_of(after.pager.page(left)) == max_key_of(mid.pager.page(0)));
        }
        assert(after.child_ok(1));
        assert(after.wf());
        assert(after.leaves() =~= seq![left as usize, right as usize]);
        let chunks = after.cells_by_leaf();
        assert(chunks =~= seq![leaf_cells(mid.pager.page(0))].push(
            leaf_cells(mid.pager.page(right)),
        ));
        seq![leaf_cells(mid.pager.page(0))].lemma_flatten_push(leaf_cells(mid.pager.page(right)));
        seq![leaf_cells(mid.pager.page(0))].lemma_flatten_singleton();
        assert(after.contents() == all);
        assert(self.leaves() =~= seq![0usize]);
        self.cells_by_leaf().lemma_flatten_singleton();
        lemma_len_before_ends(self.cells_by_leaf());
        assert(self.contents() == leaf_cells(self.pager.page(0)));
    }

    /// The new key and every key of its leaf lie above the separator to the
    /// left of the leaf.
    pub proof fn lemma_above_left_separator(&self, key: usize, value: Seq<u8>)
        requires
            self.wf(),
            self.branching(),
            self.target_leaf(key).num_cells >= 1,
        ensures
            self.leaf_slot(key) > 0 ==> internal_of(self.root()).keys[self.leaf_slot(key) - 1]
                < self.cells_with(key, value)[0].0,
    {
        self.lemma_target(key);
        let s = self.leaf_slot(key);
        let c = self.target_cell(key);
        let node = internal_of(self.root());
        let old_cells = leaf_cells(self.pager.page(self.target(key) as int));
        lemma_leaf_cells(self.pager.page(self.target(key) as int));
        if s > 0 {
            assert(self.child_ok(s - 1));
            assert(node.keys[s - 1] < key);
            if c > 0 {
                assert(self.cells_with(key, value)[0] == old_cells[0]);
            }
        }
    }

    /// A key that is not stored and belongs in a leaf left of the right
    /// child lies below the last key of that leaf, and so its cell is not
    /// the one after the last.
    pub proof fn lemma_key_below_max(&self, key: usize)
        requires
            self.wf(),
            self.branching(),
            !self.contains_key(key),
            self.leaf_slot(key) < internal_of(self.root()).num_keys,
        ensures
            key < max_key_of(self.pager.page(self.target(key) as int)),
            self.target_cell(key) < self.target_leaf(key).num_cells,
    {
        self.lemma_target(key);
        let s = self.leaf_slot(key);
        let node = internal_of(self.root());
        let leaf = self.target_leaf(key);
        let n = leaf.num_cells as int;
        assert(self.child_ok(s));
        assert(key <= node.keys[s]);
        if key == leaf.keys[n - 1] {
            assert(lower_bound(leaf.keys, n, key, n - 1)) by {
                assert forall|j: int| 0 <= j < n - 1 implies leaf.keys[j] < key by {
                    assert(leaf.keys[j] < leaf.keys[n - 1]);
                }
            }
            lemma_lower_bound_is_slot(leaf.keys, n, key, n - 1);
        }
        if self.target_cell(key) == n {
            assert(leaf.keys[n - 1] < key);
        }
    }

    /// Lowering the separator of a split leaf and putting the fresh leaf
    /// into the root gives the root the shape of `split_shape`.
    #[verifier::rlimit(40)]
    pub proof fn lemma_split_child_shape(
        &self,
        mid: &Table,
        par: &Table,
        after: &Table,
        key: usize,
        value: Seq<u8>,
    )
        requires
            self.wf(),
            self.branching(),
            !self.contains_key(key),
            key == key_of_value(value),
            self.target_leaf(key).num_cells == LEAF_MAX_CELLS,
            self.split_of(mid, key, value),
            self.separator_lowered(mid, par, key),
            internal_of(self.root()).num_keys + 1 <= INTERNAL_MAX_CELLS,
            par.internal_insert_effect(after, 0, self.pager.num_pages),
        ensures
            self.split_shape(mid, after, key),
    {
        lemma_layout();
        self.lemma_target(key);
        self.lemma_split_halves(mid, key, value);
        self.lemma_keys_increasing();
        let node = internal_of(self.root());
        let n = node.num_keys as int;
        let s = self.leaf_slot(key);
        let c = self.target_cell(key);
        let left = self.target(key) as int;
        let right = self.pager.num_pages as int;
        let all = self.cells_with(key, value);
        let old_leaf = leaf_of(self.pager.page(left));
        let old_cells = leaf_cells(self.pager.page(left));
        let old_max = max_key_of(self.pager.page(left));
        let new_max = max_key_of(mid.pager.page(left));
        let child_max = max_key_of(par.pager.page(right));
        let par_node = internal_of(par.root());
        let grown = internal_of(after.root());
        self.lemma_leaf(s);
        lemma_leaf_cells(self.pager.page(left));
        assert(self.child_ok(s));
        assert(self.child(s) == left);
        assert(mid.root() == self.root());
        assert(old_max == old_cells[LEAF_MAX_CELLS - 1].0);
        assert(new_max == all[LEAF_LEFT_SPLIT_COUNT - 1].0);
        assert(child_max == all[LEAF_MAX_CELLS as int].0);
        assert(all[0].0 <= new_max);
        assert(new_max < all[LEAF_LEFT_SPLIT_COUNT as int].0);
        assert(all[LEAF_LEFT_SPLIT_COUNT as int].0 <= child_max);
        self.lemma_above_left_separator(key, value);
        if s < n {
            self.lemma_key_below_max(key);
            assert(node.keys[s] == old_max);
            assert(lower_bound(node.keys, n, old_max, s));
            lemma_lower_bound_is_slot(node.keys, n, old_max, s);
            assert(all[LEAF_MAX_CELLS as int] == old_cells[LEAF_MAX_CELLS - 1]);
            assert(child_max == old_max);
            let last = self.child(n) as int;
            assert(self.child_ok(n));
            assert(self.child(n) != self.child(s));
            assert(par.pager.page(last) == self.pager.page(last));
            let right_max = max_key_of(par.pager.page(par_node.right_child as int));
            assert(right_max == max_key_of(self.pager.page(last)));
            assert(child_max <= right_max) by {
                let last_leaf = leaf_of(self.pager.page(last));
                assert(self.child_ok(n - 1));
                assert(node.keys[n - 1] < last_leaf.keys[0]);
                assert(last_leaf.keys[0] <= last_leaf.keys[last_leaf.num_cells - 1]);
                if s < n - 1 {
                    assert(node.keys[s] < node.keys[n - 1]);
                }
            }
            assert(strictly_increasing(par_node.keys, n)) by {
                assert forall|i: int, j: int| 0 <= i < j < n implies par_node.keys[i]
                    < par_node.keys[j] by {
                    assert(node.keys[i] < node.keys[j]);
                    if i == s {
                    } else if j == s {
                        if i < s - 1 {
                            assert(node.keys[i] < node.keys[s - 1]);
                        }
                    }
                }
            }
            assert(lower_bound(par_node.keys, n, child_max, s + 1)) by {
                assert forall|j: int| 0 <= j < s + 1 implies par_node.keys[j] < child_max by {
                    if j < s {
                        assert(node.keys[j] < node.keys[s]);
                    }
                }
                assert forall|j: int| s + 1 <= j < n implies child_max <= par_node.keys[j] by {
                    assert(node.keys[s] < node.keys[j]);
                }
            }
            lemma_lower_bound_is_slot(par_node.keys, n, child_max, s + 1);
            assert(grown == (InternalView {
                num_keys: (n + 1) as usize,
                right_child: par_node.right_child,
                children: shifted_up(par_node.children, s + 1, n).update(s + 1, right as usize),
                keys: shifted_up(par_node.keys, s + 1, n).update(s + 1, child_max),
            }));
        } else {
            assert(lower_bound(node.keys, n, old_max, n)) by {
                assert forall|j: int| 0 <= j < n implies node.keys[j] < old_max by {
                    assert(self.child_ok(n - 1));
                    assert(node.keys[n - 1] < old_leaf.keys[0]);
                    assert(old_leaf.keys[0] <= old_leaf.keys[LEAF_MAX_CELLS - 1]);
                    if j < n - 1 {
                        assert(node.keys[j] < node.keys[n - 1]);
                    }
                }
            }
            lemma_lower_bound_is_slot(node.keys, n, old_max, n);
            assert(par_node.right_child == left);
            assert(par.pager.page(left) == mid.pager.page(left));
            assert(grown == (InternalView {
                num_keys: (n + 1) as usize,
                right_child: right as usize,
                children: par_node.children.update(n, par_node.right_child),
                keys: par_node.keys.update(n, new_max),
            }));
        }
        assert forall|m: int| m != 0 && m != left && m != right implies #[trigger] after.pager.page(
            m,
        ) == self.pager.page(m) by {
            assert(par.pager.page(m) == mid.pager.page(m));
        }
        assert(after.pager.page(left) == mid.pager.page(left)) by {
            assert(par.pager.page(left) == mid.pager.page(left));
        }
        assert(after.pager.page(right) == mid.pager.page(right)) by {
            assert(par.pager.page(right) == mid.pager.page(right));
        }
    }

    /// A table whose root has the shape of `split_shape` is well-formed.
    #[verifier::rlimit(40)]
    pub proof fn lemma_split_child_wf(&self, mid: &Table, after: &Table, key: usize, value: Seq<u8>)
        requires
            self.wf(),
            self.branching(),
            !self.contains_key(key),
            key == key_of_value(value),
            self.target_leaf(key).num_cells == LEAF_MAX_CELLS,
            self.split_of(mid, key, value),
            internal_of(self.root()).num_keys + 1 <= INTERNAL_MAX_CELLS,
            self.pager.num_pages < MAX_PAGES,
            self.split_shape(mid, after, key),
        ensures
            after.wf(),
    {
        lemma_layout();
        self.lemma_target(key);
        self.lemma_split_halves(mid, key, value);
        let node = internal_of(self.root());
        let grown = internal_of(after.root());
        let n = node.num_keys as int;
        let s = self.leaf_slot(key);
        let left = self.target(key) as int;
        let right = self.pager.num_pages as int;
        let all = self.cells_with(key, value);
        let old_max = max_key_of(self.pager.page(left));
        let new_max = max_key_of(mid.pager.page(left));
        self.lemma_leaf(s);
        lemma_leaf_cells(self.pager.page(left));
        self.lemma_above_left_separator(key, value);
        assert(self.child_ok(s));
        assert(self.child(s) == left);
        assert(all[LEAF_LEFT_SPLIT_COUNT - 1].0 < all[LEAF_LEFT_SPLIT_COUNT as int].0);
        assert forall|i: int| 0 <= i <= n implies self.child(i) != right && self.child(i) >= 1 by {
            assert(self.child_ok(i));
        }
        assert forall|i: int| 0 <= i <= n + 1 implies #[trigger] after.child_ok(i) by {
            let page_num = after.child(i) as int;
            if i < s {
                assert(self.child_ok(i));
                assert(self.child(i) != self.child(s));
                assert(after.pager.page(page_num) == self.pager.page(page_num));
                assert(after.child(i + 1) == self.child(i + 1));
                if i + 1 < s {
                    assert(self.child(i + 1) != self.child(s));
                    assert(after.pager.page(self.child(i + 1) as int) == self.pager.page(
                        self.child(i + 1) as int,
                    ));
                }
            } else if i == s {
                assert(after.child(i + 1) == right);
            } else if i == s + 1 {
                if s < n {
                    self.lemma_key_below_max(key);
                    assert(all[LEAF_MAX_CELLS as int] == leaf_cells(self.pager.page(left))[
                        LEAF_MAX_CELLS - 1]);
                    assert(self.child_ok(s + 1));
                    assert(self.child(s + 1) != self.child(s));
                    assert(after.child(i + 1) == self.child(s + 1));
                    assert(after.pager.page(self.child(s + 1) as int) == self.pager.page(
                        self.child(s + 1) as int,
                    ));
                }
            } else {
                assert(self.child_ok(i - 1));
                assert(self.child(i - 1) != self.child(s));
                assert(after.pager.page(page_num) == self.pager.page(page_num));
                if i < n + 1 {
                    assert(self.child_ok(i));
                    assert(self.child(i) != self.child(s));
                    assert(after.child(i + 1) == self.child(i));
                    assert(after.pager.page(self.child(i) as int) == self.pager.page(
                        self.child(i) as int,
                    ));
                }
            }
        }
        assert forall|i: int, j: int| 0 <= i < j <= n + 1 implies #[trigger] after.child(i)
            != #[trigger] after.child(j) by {
            if i <= s && j > s + 1 {
                assert(self.child(i) != self.child(j - 1));
            } else if i <= s && j <= s {
                assert(self.child(i) != self.child(j));
            } else if i > s + 1 {
                assert(self.child(i - 1) != self.child(j - 1));
            }
        }
    }

    /// A table whose root has the shape of `split_shape` holds the contents
    /// of this table with the new record put in at its place.
    #[verifier::rlimit(40)]
    pub proof fn lemma_split_child_contents(
        &self,
        mid: &Table,
        after: &Table,
        key: usize,
        value: Seq<u8>,
    )
        requires
            self.wf(),
            self.branching(),
            !self.contains_key(key),
            key == key_of_value(value),
            self.target_leaf(key).num_cells == LEAF_MAX_CELLS,
            self.split_of(mid, key, value),
            self.split_shape(mid, after, key),
        ensures
            after.contents() == self.contents().insert(self.rank(key), (key, value)),
            after.leaves().len() == self.leaves().len() + 1,
    {
        lemma_layout();
        self.lemma_target(key);
        self.lemma_split_halves(mid, key, value);
        let node = internal_of(self.root());
        let n = node.num_keys as int;
        let s = self.leaf_slot(key);
        let c = self.target_cell(key);
        let left = self.target(key) as int;
        let right = self.pager.num_pages as int;
        let all = self.cells_with(key, value);
        assert forall|i: int| 0 <= i <= n implies self.child(i) != right && self.child(i) >= 1 by {
            assert(self.child_ok(i));
        }
        let chunks = self.cells_by_leaf();
        let left_cells = leaf_cells(mid.pager.page(left));
        let right_cells = leaf_cells(mid.pager.page(right));
        let whole = chunks.update(s, all);
        assert(after.branching());
        assert(after.leaves().len() == n + 2);
        assert(after.cells_by_leaf() =~= whole.update(s, left_cells).insert(s + 1, right_cells))
            by {
            assert forall|i: int| 0 <= i < n + 2 implies after.cells_by_leaf()[i] == whole.update(
                s,
                left_cells,
            ).insert(s + 1, right_cells)[i] by {
                assert(after.leaves()[i] == after.child(i));
                if i < s {
                    assert(self.child(i) != self.child(s));
                    assert(after.pager.page(self.child(i) as int) == self.pager.page(
                        self.child(i) as int,
                    ));
                } else if i == s {
                } else if i == s + 1 {
                } else {
                    assert(self.child(i - 1) != self.child(s));
                    assert(after.pager.page(self.child(i - 1) as int) == self.pager.page(
                        self.child(i - 1) as int,
                    ));
                }
            }
        }
        lemma_flatten_cut(whole, s, left_cells, right_cells);
        lemma_flatten_insert(chunks, s, c, (key, value));
    }
}

impl Table {
    /// What a failed insert has left of a table, it has left of every table
    /// with the same pages.
    pub proof fn lemma_insert_failed_same(
        &self,
        same: &Table,
        after: &Table,
        key: usize,
        value: Seq<u8>,
        e: Error,
    )
        requires
            self.wf(),
            self.same_pages(same),
            same.pager.wf(),
            same.insert_failed(after, key, value, e),
        ensures
            self.insert_failed(after, key, value, e),
    {
        self.lemma_same_pages(same);
        self.lemma_target(key);
        same.lemma_target(key);
        assert(self.target(key) == same.target(key));
        assert(self.cells_with(key, value) == same.cells_with(key, value));
        match e {
            Error::DuplicateKey(_) => {
                after.lemma_same_pages_trans(same, self);
            },
            Error::PageOutOfBounds(page_num) => {
                if page_num == self.pager.num_pages {
                    after.lemma_same_pages_trans(same, self);
                } else {
                    same.lemma_split_of_same(self, after, key, value);
                }
            },
            Error::InternalSplit => {
                let (mid, par) = choose|mid: Table, par: Table|
                    {
                        &&& #[trigger] same.split_of(&mid, key, value)
                        &&& #[trigger] same.separator_lowered(&mid, &par, key)
                        &&& par.internal_insert_effect(after, 0, same.pager.num_pages)
                    };
                same.lemma_split_of_same(self, &mid, key, value);
                assert(self.root() == same.root());
                assert(self.separator_lowered(&mid, &par, key));
            },
            _ => {},
        }
    }

    /// The full leaf of a key in a well-formed table can be split at the
    /// cell of the key.
    pub proof fn lemma_can_split(&self, key: usize)
        requires
            self.wf(),
            self.target_full(key),
        ensures
            0 <= self.target_cell(key) <= LEAF_MAX_CELLS,
            self.can_split(self.target(key), self.target_cell(key) as usize),
    {
        lemma_layout();
        self.lemma_target(key);
        let slot = self.leaf_slot(key);
        self.lemma_leaf(slot);
        if self.branching() {
            let node = internal_of(self.root());
            assert(self.child_ok(slot));
            assert(self.child_ok(node.num_keys as int));
        }
    }

    /// What an insert has made of a table, it has made of every table with
    /// the same pages.
    pub proof fn lemma_inserted_same(&self, same: &Table, after: &Table, key: usize, value: Seq<u8>)
        requires
            self.wf(),
            self.same_pages(same),
            same.pager.wf(),
            same.inserted(after, key, value),
        ensures
            self.inserted(after, key, value),
    {
        self.lemma_same_pages(same);
        self.lemma_target(key);
        same.lemma_target(key);
        assert(self.root() == same.root());
        assert(self.target(key) == same.target(key));
        assert(self.pager.page(self.target(key) as int) == same.pager.page(
            self.target(key) as int,
        ));
        assert(self.cells_with(key, value) == same.cells_with(key, value));
        if self.target_full(key) {
            let mid = choose|mid: Table|
                #[trigger] same.split_of(&mid, key, value) && if same.branching() {
                    same.split_shape(&mid, after, key)
                } else {
                    mid.new_root_effect(after, same.pager.num_pages)
                };
            same.lemma_split_of_same(self, &mid, key, value);
            if self.branching() {
                let n = internal_of(self.root()).num_keys as int;
                assert forall|i: int| 0 <= i <= n + 1 implies self.child(i) == same.child(i) by {}
                assert forall|m: int|
                    m != 0 && m != self.target(key) && m != self.pager.num_pages implies #[trigger] after.pager.page(
                    m,
                ) == self.pager.page(m) by {
                    assert(same.pager.page(m) == self.pager.page(m));
                }
                assert(self.split_shape(&mid, after, key));
            }
            assert(self.split_of(&mid, key, value));
        } else {
            assert forall|m: int| m != self.target(key) implies #[trigger] after.pager.page(m)
                == self.pager.page(m) by {
                assert(same.pager.page(m) == self.pager.page(m));
            }
        }
    }

    /// A split of the leaf of `key` in a table is a split of that leaf in
    /// every table with the same pages.
    pub proof fn lemma_split_of_same(&self, same: &Table, mid: &Table, key: usize, value: Seq<u8>)
        requires
            self.same_pages(same),
            self.target(key) == same.target(key),
            self.cells_with(key, value) == same.cells_with(key, value),
            self.split_of(mid, key, value),
        ensures
            same.split_of(mid, key, value),
    {
        assert forall|m: int|
            m != same.target(key) && m != same.pager.num_pages implies #[trigger] mid.pager.page(m)
            == same.pager.page(m) by {
            assert(self.pager.page(m) == same.pager.page(m));
        }
        assert(self.pager.page(self.target(key) as int) == same.pager.page(
            self.target(key) as int,
        ));
    }
}

impl Table {
    /// Visibility: after a record has been inserted, its key is stored with
    /// its value at its place, every key that was stored is stored still,
    /// and no other key is stored.
    pub proof fn lemma_inserted_visible(&self, after: &Table, key: usize, value: Seq<u8>)
        requires
            self.wf(),
            self.inserted(after, key, value),
        ensures
            after.contains_key(key),
            after.contents()[self.rank(key)] == (key, value),
            after.contents().len() == self.contents().len() + 1,
            forall|other: usize| self.contains_key(other) ==> after.contains_key(other),
            forall|other: usize|
                other != key && after.contains_key(other) ==> self.contains_key(other),
    {
        self.lemma_target(key);
        let at = self.rank(key);
        let before = self.contents();
        let now = after.contents();
        assert(now[at].0 == key);
        assert forall|other: usize| self.contains_key(other) implies after.contains_key(other) by {
            let g = choose|g: int| 0 <= g < before.len() && before[g].0 == other;
            if g < at {
                assert(now[g].0 == other);
            } else {
                assert(now[g + 1].0 == other);
            }
        }
        assert forall|other: usize|
            other != key && after.contains_key(other) implies self.contains_key(other) by {
            let g = choose|g: int| 0 <= g < now.len() && now[g].0 == other;
            if g < at {
                assert(before[g].0 == other);
            } else {
                assert(before[g - 1].0 == other);
            }
        }
    }
}

/// In the run of tables `states`, each is what a successful insert makes of
/// the one before it.
pub open spec fn insert_run(states: Seq<Table>, keys: Seq<usize>, values: Seq<Seq<u8>>) -> bool {
    &&& states.len() == keys.len() + 1
    &&& values.len() == keys.len()
    &&& forall|i: int|
        0 <= i < keys.len() ==> states[i].insert_error(#[trigger] keys[i]) is None
            && states[i].inserted(&states[i + 1], keys[i], values[i])
}

/// As long as no more records have been inserted into an empty table than a
/// leaf has room for, the tree is its root, a leaf that holds them all.
pub proof fn lemma_single_leaf(
    states: Seq<Table>,
    keys: Seq<usize>,
    values: Seq<Seq<u8>>,
    i: int,
)
    requires
        insert_run(states, keys, values),
        states[0].wf(),
        !states[0].branching(),
        states[0].contents().len() == 0,
        0 <= i <= keys.len(),
        i <= LEAF_MAX_CELLS,
    ensures
        states[i].wf(),
        !states[i].branching(),
        states[i].leaves().len() == 1,
        states[i].contents().len() == i,
        leaf_of(states[i].root()).num_cells == i,
        states[i].pager.num_pages == states[0].pager.num_pages,
    decreases i,
{
    if i == 0 {
        states[0].lemma_leaf(0);
        states[0].cells_by_leaf().lemma_flatten_singleton();
    } else {
        lemma_single_leaf(states, keys, values, i - 1);
        let before = states[i - 1];
        let after = states[i];
        assert(before.insert_error(keys[i - 1]) is None);
        assert(before.inserted(&after, keys[i - 1], values[i - 1]));
        assert(before.target(keys[i - 1]) == 0);
        assert(!before.target_full(keys[i - 1]));
        assert(after.leaves().len() == 1);
        before.lemma_target(keys[i - 1]);
        assert(after.contents().len() == before.contents().len() + 1);
        after.lemma_leaf(0);
        after.cells_by_leaf().lemma_flatten_singleton();
    }
}

/// The boundary of the root leaf: when one more record has been inserted
/// into an empty table than a leaf has room for, the tree is an internal
/// root with one key over two leaves, of which the left has the right as
/// its sibling and the right has none. The left leaf holds the lower
/// `LEAF_LEFT_SPLIT_COUNT` cells and the right leaf the upper
/// `LEAF_RIGHT_SPLIT_COUNT`; the right leaf lies on the first page that was
/// not in use, the left leaf on the one after it.
pub proof fn lemma_boundary(states: Seq<Table>, keys: Seq<usize>, values: Seq<Seq<u8>>)
    requires
        insert_run(states, keys, values),
        keys.len() == LEAF_MAX_CELLS + 1,
        states[0].wf(),
        !states[0].branching(),
        states[0].contents().len() == 0,
    ensures
        states.last().wf(),
        states.last().branching(),
        internal_of(states.last().root()).num_keys == 1,
        states.last().leaves().len() == 2,
        states.last().contents().len() == LEAF_MAX_CELLS + 1,
        leaf_ok(states.last().pager.page(states.last().leaves()[0] as int)),
        leaf_ok(states.last().pager.page(states.last().leaves()[1] as int)),
        leaf_of(states.last().pager.page(states.last().leaves()[0] as int)).next_leaf
            == states.last().leaves()[1],
        leaf_of(states.last().pager.page(states.last().leaves()[1] as int)).next_leaf == 0,
        leaf_of(states.last().pager.page(states.last().leaves()[0] as int)).num_cells
            == LEAF_LEFT_SPLIT_COUNT,
        leaf_of(states.last().pager.page(states.last().leaves()[1] as int)).num_cells
            == LEAF_RIGHT_SPLIT_COUNT,
        states.last().leaves()[1] == states[0].pager.num_pages,
        states.last().leaves()[0] == states[0].pager.num_pages + 1,
        states.last().pager.num_pages == states[0].pager.num_pages + 2,
        internal_of(states.last().root()).keys[0] == states.last().contents()[
            LEAF_LEFT_SPLIT_COUNT - 1].0,
{
    let full = LEAF_MAX_CELLS as int;
    lemma_single_leaf(states, keys, values, full);
    let before = states[full];
    let after = states[full + 1];
    assert(before.insert_error(keys[full]) is None);
    assert(before.inserted(&after, keys[full], values[full]));
    assert(before.target(keys[full]) == 0);
    assert(before.target_full(keys[full]));
    assert(after.leaves().len() == 2);
    before.lemma_target(keys[full]);
    assert(after.contents().len() == before.contents().len() + 1);
    assert(after == states.last());
    after.lemma_leaf(0);
    after.lemma_leaf(1);
    let value = values[full];
    let mid = choose|mid: Table|
        #[trigger] before.split_of(&mid, keys[full], value) && mid.new_root_effect(
            &after,
            before.pager.num_pages,
        );
    after.lemma_contents_sorted();
    assert(after.contents()[before.rank(keys[full])] == (keys[full], value));
    assert(keys[full] == key_of_value(value));
    before.lemma_split_halves(&mid, keys[full], value);
    assert(after.child(0) == mid.pager.num_pages);
    assert(after.child(1) == before.pager.num_pages);
    assert(after.leaves()[0] == after.child(0));
    assert(after.leaves()[1] == after.child(1));
    let left_cells = after.cells_of(0);
    lemma_leaf_cells(after.pager.page(after.leaves()[0] as int));
    lemma_flatten_index(after.cells_by_leaf(), 0, LEAF_LEFT_SPLIT_COUNT - 1);
    lemma_len_before_ends(after.cells_by_leaf());
    assert(after.child_ok(0));
}

impl Table {
    /// Every stored value still decodes after a record that fits has been
    /// inserted.
    pub proof fn lemma_inserted_decodable(&self, after: &Table, record: RowView)
        requires
            self.wf(),
            record.fits(),
            self.all_decodable(),
            self.inserted(after, record.id as usize, record.encoding()),
        ensures
            after.all_decodable(),
    {
        let key = record.id as usize;
        let at = self.rank(key);
        self.lemma_target(key);
        lemma_codec_round_trip(record);
        assert forall|g: int| 0 <= g < after.contents().len() implies decodable(
            #[trigger] after.contents()[g].1,
        ) by {
            if g < at {
                assert(after.contents()[g] == self.contents()[g]);
            } else if g > at {
                assert(after.contents()[g] == self.contents()[g - 1]);
            }
        }
    }
}

} // verus!
