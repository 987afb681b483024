//! The table: a B+ tree of records over a pager, with its root at page 0.
//!
//! The tree never grows beyond two levels: a leaf that fills up is split,
//! and the root becomes an internal node over leaves, but an internal node
//! is never split.

use crate::bytes::{le_read_u32, zero_bytes};
use crate::chunks::{len_before, lemma_flatten_around, lemma_flatten_index, lemma_len_before_ends};
use crate::cursor::Cursor;
use crate::error::Error;
use crate::page::{
    blank_page, header_of, internal_of, leaf_of, lemma_layout, slot_of, NodeType, Page,
    COMMON_HEADER_SIZE, IS_ROOT_OFFSET,
    INTERNAL_CELL_CAPACITY, INTERNAL_MAX_CELLS, LEAF_CELL_SIZE, LEAF_HEADER_SIZE,
    LEAF_MAX_CELLS, PAGE_SIZE,
};
use crate::pager::{Pager, MAX_PAGES};
use crate::row::{
    decodable, decoding, lemma_codec_round_trip, lemma_row_size, Row, RowView, ROW_SIZE,
};
use crate::text::{decimal, indentation, numbered_line, texts};
use crate::tree::{has_max_key, key_of_value, leaf_ok};
use vstd::prelude::*;
use vstd::string::StringExecFns;

verus! {

/// A tree of records over a pager.
pub struct Table {
    /// The page number of the root: always 0.
    pub root_page_num: usize,
    pub pager: Pager,
}

/// The bytes of the page `n` in a file with the bytes `file`: zeros beyond
/// the end of the file.
pub open spec fn image_page(file: Seq<u8>, n: int) -> Seq<u8> {
    if 0 <= n < file.len() as int / PAGE_SIZE as int {
        file.subrange(n * PAGE_SIZE, (n + 1) * PAGE_SIZE)
    } else {
        zero_bytes(PAGE_SIZE as nat)
    }
}

/// A file with the bytes `file` holds a well-formed tree: every table over
/// it is well-formed.
pub open spec fn image_ok(file: Seq<u8>) -> bool {
    forall|table: Table| #[trigger] table.opened_from(file) ==> table.wf()
}

/// The lines that show the layout constants.
pub open spec fn constants_lines() -> Seq<Seq<char>> {
    seq![
        "Constants:"@,
        Seq::<char>::empty(),
        "ROW_SIZE: "@ + decimal(ROW_SIZE as nat),
        "COMMON_HEADER_SIZE: "@ + decimal(COMMON_HEADER_SIZE as nat),
        "LEAF_HEADER_SIZE: "@ + decimal(LEAF_HEADER_SIZE as nat),
        "LEAF_CELL_SIZE: "@ + decimal(LEAF_CELL_SIZE as nat),
        "LEAF_MAX_CELLS: "@ + decimal(LEAF_MAX_CELLS as nat),
    ]
}

impl Table {
    /// The table is as it is right after it was opened over a file with the
    /// bytes `file`, which is not empty: every page of the file is in use,
    /// and each has the bytes that the file holds.
    pub open spec fn opened_from(&self, file: Seq<u8>) -> bool {
        &&& self.root_page_num == 0
        &&& self.pager.wf()
        &&& self.pager.file@ == file
        &&& self.pager.num_pages == file.len() as int / PAGE_SIZE as int
        &&& forall|n: int| #[trigger] self.pager.page(n) == image_page(file, n)
    }

    /// The table has a root with an acceptable number of children, each on a
    /// page in use other than the root: what has to hold before the
    /// children can be looked at one by one.
    pub open spec fn children_in_range(&self) -> bool {
        let node = internal_of(self.root());
        &&& self.root_page_num == 0
        &&& self.pager.wf()
        &&& 1 <= self.pager.num_pages <= MAX_PAGES
        &&& self.pager.file_pages() <= self.pager.num_pages
        &&& self.branching()
        &&& 1 <= node.num_keys <= INTERNAL_MAX_CELLS
        &&& forall|i: int|
            0 <= i <= node.num_keys ==> 1 <= #[trigger] self.child(i) < self.pager.num_pages
    }
}

impl Table {
    /// Opens the table that the bytes of a file hold. An empty file gives an
    /// empty table: a root that is a leaf without cells. Any other file of
    /// whole pages is taken as it is: every page of it is in use, and none
    /// is read yet; `check` tells whether it holds a well-formed tree. Fails
    /// when the file is not a whole number of pages long.
    pub fn open(file: Vec<u8>) -> (res: Result<Table, Error>)
        ensures
            res is Ok <==> file@.len() % (PAGE_SIZE as nat) == 0,
            res matches Err(e) ==> e == Error::CorruptFile,
            res matches Ok(table) ==> {
                &&& table.root_page_num == 0
                &&& table.pager.wf()
                &&& table.pager.file@ == file@
                &&& file@.len() == 0 ==> {
                    &&& table.wf()
                    &&& table.pager.num_pages == 1
                    &&& table.root() == blank_page(1).update(IS_ROOT_OFFSET as int, 1u8)
                    &&& table.contents() == Seq::<(usize, Seq<u8>)>::empty()
                }
                &&& file@.len() > 0 ==> table.opened_from(file@) && forall|n: int|
                    !table.pager.resident(n)
            },
    {
        let mut pager = Pager::new(file)?;
        if pager.num_pages == 0 {
            // New database file
            let page = pager.get_page(0)?;
            page.init_leaf();
            page.set_is_root(true);
            pager.num_pages = 1;
            let table = Table { root_page_num: 0, pager };
            proof {
                lemma_layout();
                assert(table.leaves() =~= seq![0usize]);
                table.cells_by_leaf().lemma_flatten_singleton();
                assert(table.contents() =~= Seq::<(usize, Seq<u8>)>::empty());
            }
            return Ok(table);
        }
        Ok(Table { root_page_num: 0, pager })
    }

    /// Writes every page in use back into the file, in order, and empties
    /// the cache of them. No page changes, and a well-formed tree stays what
    /// it is.
    pub fn close(&mut self)
        requires
            old(self).pager.wf(),
            old(self).pager.num_pages <= MAX_PAGES,
        ensures
            final(self).pager.wf(),
            final(self).flushed(),
            final(self).root_page_num == old(self).root_page_num,
            final(self).pager.num_pages == old(self).pager.num_pages,
            forall|n: int| #[trigger] final(self).pager.page(n) == old(self).pager.page(n),
            forall|n: int|
                0 <= n < old(self).pager.num_pages ==> #[trigger] image_page(
                    final(self).pager.file@,
                    n,
                ) == old(self).pager.page(n),
            old(self).wf() ==> final(self).wf() && final(self).contents() == old(self).contents(),
    {
        let num_pages = self.pager.num_pages;
        let mut page_num: usize = 0;
        while page_num < num_pages
            invariant
                page_num <= num_pages,
                num_pages == self.pager.num_pages,
                num_pages == old(self).pager.num_pages,
                self.root_page_num == old(self).root_page_num,
                self.pager.wf(),
                old(self).pager.file_pages() <= num_pages ==> self.pager.file_pages() <= num_pages,
                num_pages <= MAX_PAGES,
                forall|n: int| #[trigger] self.pager.page(n) == old(self).pager.page(n),
                forall|n: int| 0 <= n < page_num ==> !#[trigger] self.pager.resident(n),
            decreases num_pages - page_num,
        {
            let ghost prev = *self;
            self.pager.flush(page_num);
            proof {
                assert forall|n: int| #[trigger] self.pager.page(n) == old(self).pager.page(n) by {
                    assert(prev.pager.page(n) == old(self).pager.page(n));
                }
                assert forall|n: int| 0 <= n < page_num + 1 implies !#[trigger] self.pager.resident(
                    n,
                ) by {
                    if n < page_num {
                        assert(!prev.pager.resident(n));
                    }
                }
            }
            page_num += 1;
        }
        proof {
            if old(self).wf() {
                assert forall|p: usize| old(self).leaves().contains(p) implies p
                    < self.pager.num_pages && self.pager.page(p as int) == old(self).pager.page(
                    p as int,
                ) by {
                    let i = choose|i: int|
                        0 <= i < old(self).leaves().len() && old(self).leaves()[i] == p;
                    old(self).lemma_leaf(i);
                }
                old(self).lemma_same_tree(self);
            }
            assert forall|n: int| 0 <= n < old(self).pager.num_pages implies #[trigger] image_page(
                self.pager.file@,
                n,
            ) == old(self).pager.page(n) by {
                assert(!self.pager.resident(n));
                assert(self.pager.page(n) == old(self).pager.page(n));
            }
        }
    }

    /// Inserts `row` under its id. Fails, and leaves every page as it is,
    /// when the id is stored already; fails as well when there is no place
    /// left for the record.
    #[verifier::rlimit(40)]
    pub fn insert(&mut self, row: &Row) -> (res: Result<(), Error>)
        requires
            old(self).wf(),
            row@.fits(),
        ensures
            final(self).pager.wf(),
            res is Ok <==> old(self).insert_error(row.id as usize) is None,
            res matches Err(e) ==> old(self).insert_error(row.id as usize) == Some(e) && old(
                self,
            ).insert_failed(final(self), row.id as usize, row@.encoding(), e),
            res is Ok ==> old(self).inserted(final(self), row.id as usize, row@.encoding()),
            old(self).contains_key(row.id as usize) ==> final(self).wf() && final(self).same_pages(
                old(self),
            ) && final(self).contents() == old(self).contents(),
    {
        let key_to_insert = row.id as usize;
        let root_page_num = self.root_page_num;
        proof {
            lemma_layout();
            old(self).lemma_target(key_to_insert);
        }
        let (page_num, cell_num) = self.find(key_to_insert, root_page_num)?;
        let ghost found = *self;
        proof {
            old(self).lemma_same_pages(self);
            self.lemma_target(key_to_insert);
        }
        let page = self.pager.get_page(page_num)?;
        let num_cells = page.get_leaf_num_cells();
        if cell_num < num_cells {
            let key_at_index = page.get_leaf_key(cell_num);
            if key_at_index == key_to_insert {
                proof {
                    found.lemma_same_pages(self);
                    self.lemma_same_pages_trans(&found, old(self));
                }
                return Err(Error::DuplicateKey(key_to_insert));
            }
        }
        proof {
            found.lemma_same_pages(self);
            self.lemma_same_pages_trans(&found, old(self));
        }
        let ghost checked = *self;
        let mut cursor = Cursor::from_pos(self, page_num, cell_num)?;
        proof {
            checked.lemma_same_pages(self);
            self.lemma_same_pages_trans(&checked, old(self));
            old(self).lemma_same_pages(self);
            self.lemma_target(key_to_insert);
            assert(self.rank(key_to_insert) == old(self).rank(key_to_insert));
        }
        let ghost found = *self;
        proof {
            if self.target_full(key_to_insert) {
                self.lemma_can_split(key_to_insert);
            }
        }
        let res = cursor.leaf_insert(self, key_to_insert, row);
        proof {
            if res is Ok {
                old(self).lemma_inserted_same(&found, self, key_to_insert, row@.encoding());
            }
            if let Err(e) = res {
                old(self).lemma_insert_failed_same(&found, self, key_to_insert, row@.encoding(), e);
            }
        }
        res
    }

    /// Scans the table: every stored record, in ascending order of key.
    /// Fails when a stored value cannot be decoded.
    #[verifier::rlimit(40)]
    pub fn select(&mut self) -> (res: Result<Vec<Row>, Error>)
        requires
            old(self).wf(),
        ensures
            final(self).wf(),
            final(self).same_pages(old(self)),
            res is Ok <==> old(self).all_decodable(),
            res matches Ok(rows) ==> {
                &&& old(self).is_scan(rows@)
                &&& forall|i: int, j: int| 0 <= i < j < rows@.len() ==> rows@[i].id < rows@[j].id
            },
            res matches Err(e) ==> e == Error::Decode,
    {
        let ghost start = *old(self);
        let mut cursor = Cursor::from_start(self)?;
        let mut rows: Vec<Row> = Vec::new();
        let ghost mut slot: int = 0;
        proof {
            lemma_layout();
            start.lemma_same_pages(self);
            self.lemma_leaf(0);
            lemma_len_before_ends(self.cells_by_leaf());
            if cursor.end_of_table {
                if self.leaves().len() == 1 {
                    self.cells_by_leaf().lemma_flatten_singleton();
                }
            }
        }
        while !cursor.end_of_table
            invariant
                start == *old(self),
                self.wf(),
                self.same_pages(&start),
                start.wf(),
                self.contents() == start.contents(),
                rows@.len() <= self.contents().len(),
                forall|g: int|
                    0 <= g < rows@.len() ==> decodable(#[trigger] self.contents()[g].1)
                        && rows@[g]@ == decoding(self.contents()[g].1),
                cursor.end_of_table ==> rows@.len() == self.contents().len(),
                !cursor.end_of_table ==> cursor.on(self, slot) && rows@.len() == len_before(
                    self.cells_by_leaf(),
                    slot,
                ) + cursor.cell_num,
            decreases self.contents().len() - rows@.len(),
        {
            let ghost before = *self;
            let ghost g = rows@.len() as int;
            let ghost c = cursor.cell_num as int;
            proof {
                self.lemma_leaf(slot);
                lemma_flatten_index(self.cells_by_leaf(), slot, c);
                lemma_flatten_around(self.cells_by_leaf(), slot);
                lemma_len_before_ends(self.cells_by_leaf());
                assert(self.contents()[g] == self.cells_of(slot)[c]);
            }
            let row = match cursor.get_row(self) {
                Ok(row) => row,
                Err(e) => {
                    proof {
                        self.lemma_same_pages_trans(&before, &start);
                        assert(!decodable(start.contents()[g].1));
                    }
                    return Err(e);
                },
            };
            rows.push(row);
            let ghost read = *self;
            proof {
                before.lemma_same_pages(self);
            }
            match cursor.advance(self) {
                Ok(()) => {},
                Err(e) => {
                    return Err(e);
                },
            }
            proof {
                read.lemma_same_pages(self);
                if !cursor.end_of_table && cursor.cell_num == 0 {
                    slot = slot + 1;
                }
                read.lemma_same_pages_trans(&before, &start);
                self.lemma_same_pages_trans(&read, &start);
            }
        }
        proof {
            start.lemma_contents_sorted();
            assert forall|i: int, j: int| 0 <= i < j < rows@.len() implies rows@[i].id
                < rows@[j].id by {
                assert(start.contents()[i].0 < start.contents()[j].0);
                assert(rows@[i]@ == decoding(start.contents()[i].1));
                assert(rows@[j]@ == decoding(start.contents()[j].1));
            }
        }
        Ok(rows)
    }

    /// Grows the tree by one level after the root has been split: the old
    /// root moves to a fresh page and becomes the left child, the page
    /// `right_child_page_num` becomes the right child, and page 0 becomes an
    /// internal node over the two, with the last key of the left child as
    /// its one separator. Fails, and changes nothing, when the cache has no
    /// slot left for the fresh page. Fails as well when the page
    /// `right_child_page_num` lies outside the cache: the left child is made
    /// by then, and nothing else is changed.
    #[verifier::rlimit(40)]
    pub fn new_root(&mut self, right_child_page_num: usize) -> (res: Result<(), Error>)
        requires
            old(self).pager.wf(),
            old(self).root_page_num == 0,
            old(self).pager.resident(0),
            old(self).pager.file_pages() <= old(self).pager.num_pages,
            0 < old(self).pager.num_pages,
            0 < right_child_page_num,
            right_child_page_num != old(self).pager.num_pages,
            has_max_key(old(self).root()),
        ensures
            final(self).pager.wf(),
            final(self).root_page_num == 0,
            final(self).pager.file == old(self).pager.file,
            old(self).pager.num_pages >= MAX_PAGES ==> res == Err::<(), Error>(
                Error::PageOutOfBounds(old(self).pager.num_pages),
            ) && *final(self) == *old(self),
            old(self).pager.num_pages < MAX_PAGES && right_child_page_num >= MAX_PAGES ==> res
                == Err::<(), Error>(Error::PageOutOfBounds(right_child_page_num)) && old(
                self,
            ).left_child_made(final(self)),
            old(self).pager.num_pages < MAX_PAGES && right_child_page_num < MAX_PAGES ==> res
                is Ok && old(self).new_root_effect(final(self), right_child_page_num),
    {
        proof {
            lemma_layout();
        }
        let root_page_num = self.root_page_num;
        let root_copy = match self.pager.copy_page(root_page_num)? {
            Some(page) => page,
            None => {
                return Err(Error::PageOutOfBounds(root_page_num));
            },
        };
        let left_child_page_num = self.pager.get_unused_page_num();
        let left_child = self.pager.get_page(left_child_page_num)?;
        *left_child = root_copy;
        left_child.set_is_root(false);
        left_child.set_parent(root_page_num);
        let left_child_max_key = left_child.get_max_key();
        self.pager.num_pages += 1;

        let right_child = self.pager.get_page(right_child_page_num)?;
        right_child.set_parent(root_page_num);

        let root = self.pager.get_page(root_page_num)?;
        root.init_internal();
        root.set_is_root(true);
        root.set_internal_num_keys(1);
        root.set_internal_child(0, left_child_page_num)?;
        root.set_internal_key(0, left_child_max_key);
        root.set_internal_right_child(right_child_page_num);
        Ok(())
    }

    /// The lines that show the layout constants.
    pub fn print_constants() -> (lines: Vec<String>)
        ensures
            texts(lines@) == constants_lines(),
    {
        let mut lines: Vec<String> = Vec::new();
        lines.push(String::from_str("Constants:"));
        lines.push(String::new());
        lines.push(numbered_line(0, "ROW_SIZE: ", ROW_SIZE));
        lines.push(numbered_line(0, "COMMON_HEADER_SIZE: ", COMMON_HEADER_SIZE));
        lines.push(numbered_line(0, "LEAF_HEADER_SIZE: ", LEAF_HEADER_SIZE));
        lines.push(numbered_line(0, "LEAF_CELL_SIZE: ", LEAF_CELL_SIZE));
        lines.push(numbered_line(0, "LEAF_MAX_CELLS: ", LEAF_MAX_CELLS));
        proof {
            assert(indentation(0) =~= Seq::<char>::empty());
            assert forall|label: Seq<char>, n: nat|
                #![trigger label + decimal(n)]
                indentation(0) + label + decimal(n) == label + decimal(n) by {
                assert(indentation(0) + label =~= label);
            }
            assert(texts(lines@) =~= constants_lines());
        }
        lines
    }

    /// Descends from the page `start_page_num` to the leaf in which `key`
    /// lives or would have to be inserted, and gives that leaf's page number
    /// and the cell of `key` in it: the cell that holds `key` if it is
    /// stored, else the one at which to insert it.
    pub fn find(&mut self, key: usize, start_page_num: usize) -> (res: Result<
        (usize, usize),
        Error,
    >)
        requires
            old(self).wf(),
            old(self).in_tree(start_page_num),
        ensures
            final(self).wf(),
            final(self).same_pages(old(self)),
            res is Ok,
            res matches Ok((page_num, cell_num)) ==> {
                let leaf = leaf_of(old(self).pager.page(page_num as int));
                &&& page_num == old(self).leaf_from(key, start_page_num)
                &&& old(self).in_tree(page_num)
                &&& leaf_ok(old(self).pager.page(page_num as int))
                &&& cell_num == slot_of(leaf.keys, leaf.num_cells as int, key)
            },
        decreases
                (if header_of(old(self).pager.page(start_page_num as int)).node_type
                    == NodeType::Internal {
                    1nat
                } else {
                    0nat
                }),
    {
        proof {
            lemma_layout();
            if old(self).branching() && start_page_num != 0 {
                let i = choose|i: int|
                    0 <= i < old(self).leaves().len() && old(self).leaves()[i] == start_page_num;
                assert(old(self).child_ok(i));
            }
        }
        let start_page = self.pager.get_page(start_page_num)?;
        match start_page.get_type() {
            NodeType::Leaf => {
                let cell_num = start_page.leaf_find(key);
                proof {
                    old(self).lemma_same_pages(self);
                }
                Ok((start_page_num, cell_num))
            },
            NodeType::Internal => {
                let child_num = start_page.internal_find(key);
                let child_page_num = start_page.get_internal_child(child_num)?;
                proof {
                    old(self).lemma_same_pages(self);
                    let node = internal_of(old(self).root());
                    assert(start_page_num == 0);
                    old(self).lemma_keys_increasing();
                    assert(child_num == old(self).leaf_slot(key));
                    assert(old(self).child_ok(child_num as int));
                    assert(old(self).leaves()[child_num as int] == child_page_num);
                }
                self.find(key, child_page_num)
            },
        }
    }

    /// Puts the page `child_page_num` into the internal node
    /// `parent_page_num` as a child, under its last key. A child whose last
    /// key is above that of the right child becomes the right child, and the
    /// old right child gets the last cell; any other child gets the cell in
    /// the slot of its last key, and the cells from there on move one up.
    ///
    /// The number of keys is raised first. Fails when the node would then
    /// hold more keys than an internal node is allowed to: it would have to
    /// be split. Fails as well when the child, the parent or the parent's
    /// right child lies outside the cache; only the last of these failures
    /// comes after the number of keys was raised.
    #[verifier::rlimit(40)]
    pub fn internal_insert(&mut self, parent_page_num: usize, child_page_num: usize) -> (res:
        Result<(), Error>)
        requires
            old(self).pager.wf(),
            old(self).pager.file_pages() <= old(self).pager.num_pages,
            parent_page_num != child_page_num,
            child_page_num < MAX_PAGES ==> has_max_key(
                old(self).pager.page(child_page_num as int),
            ),
            child_page_num < MAX_PAGES && parent_page_num < MAX_PAGES ==> {
                let node = internal_of(old(self).pager.page(parent_page_num as int));
                &&& header_of(old(self).pager.page(parent_page_num as int)).node_type
                    == NodeType::Internal
                &&& node.num_keys < INTERNAL_CELL_CAPACITY
                &&& node.right_child != parent_page_num
                &&& node.right_child < MAX_PAGES ==> has_max_key(
                    old(self).pager.page(node.right_child as int),
                )
            },
        ensures
            final(self).pager.wf(),
            final(self).root_page_num == old(self).root_page_num,
            final(self).pager.file == old(self).pager.file,
            final(self).pager.num_pages == old(self).pager.num_pages,
            child_page_num >= MAX_PAGES ==> res == Err::<(), Error>(
                Error::PageOutOfBounds(child_page_num),
            ) && *final(self) == *old(self),
            child_page_num < MAX_PAGES && parent_page_num >= MAX_PAGES ==> res == Err::<
                (),
                Error,
            >(Error::PageOutOfBounds(parent_page_num)) && forall|m: int| #[trigger]
                final(self).pager.page(m) == old(self).pager.page(m),
            child_page_num < MAX_PAGES && parent_page_num < MAX_PAGES ==> old(self).child_put(
                final(self),
                parent_page_num,
                child_page_num,
                res,
            ),
    {
        proof {
            lemma_layout();
        }
        let child = self.pager.get_page(child_page_num)?;
        let child_max_key = child.get_max_key();

        let parent = self.pager.get_page(parent_page_num)?;
        let index = parent.internal_find(child_max_key);

        let old_num_keys = parent.get_internal_num_keys();
        parent.set_internal_num_keys(old_num_keys + 1);

        if old_num_keys + 1 > INTERNAL_MAX_CELLS {
            return Err(Error::InternalSplit);
        }
        let right_child_page_num = parent.get_internal_right_child();
        let right_child = self.pager.get_page(right_child_page_num)?;
        let right_child_max_key = right_child.get_max_key();

        let parent = self.pager.get_page(parent_page_num)?;  // the same as 'parent' above
        if child_max_key > right_child_max_key {
            // Replace right child
            parent.set_internal_child(old_num_keys, right_child_page_num)?;
            parent.set_internal_key(old_num_keys, right_child_max_key);
            parent.set_internal_right_child(child_page_num);
        } else {
            // Make room for the new cell
            parent.internal_shift_up(index, old_num_keys);
            parent.set_internal_child(index, child_page_num)?;
            parent.set_internal_key(index, child_max_key);
        }
        Ok(())
    }
}

/// Tells whether `page` is a well-formed leaf.
pub fn check_leaf(page: &Page) -> (ok: bool)
    requires
        page.wf(),
    ensures
        ok == leaf_ok(page@),
{
    proof {
        lemma_layout();
    }
    match page.get_type() {
        NodeType::Internal => {
            return false;
        },
        NodeType::Leaf => {},
    }
    let num_cells = page.get_leaf_num_cells();
    if num_cells > LEAF_MAX_CELLS {
        return false;
    }
    let ghost leaf = leaf_of(page@);
    let mut i: usize = 0;
    while i < num_cells
        invariant
            page.wf(),
            leaf == leaf_of(page@),
            num_cells == leaf.num_cells,
            num_cells <= LEAF_MAX_CELLS,
            i <= num_cells,
            forall|j: int, k: int| 0 <= j < k < i ==> leaf.keys[j] < leaf.keys[k],
            forall|j: int| 0 <= j < i ==> #[trigger] leaf.keys[j] == key_of_value(leaf.values[j]),
        decreases num_cells - i,
    {
        let (key, value) = page.get_leaf_cell(i);
        proof {
            lemma_row_size();
        }
        let stored = le_read_u32(value.as_slice(), 0);
        if key != stored as usize {
            return false;
        }
        if i > 0 {
            let before = page.get_leaf_key(i - 1);
            if before >= key {
                return false;
            }
            proof {
                assert forall|j: int, k: int| 0 <= j < k < i + 1 implies leaf.keys[j]
                    < leaf.keys[k] by {
                    if k == i && j < i - 1 {
                        assert(leaf.keys[j] < leaf.keys[i - 1]);
                    }
                }
            }
        }
        i += 1;
    }
    true
}

impl Table {
    /// Tells whether the child in slot `i` of the root is a leaf of the tree
    /// as `child_ok` has it.
    #[verifier::rlimit(40)]
    fn check_child(&mut self, i: usize) -> (ok: bool)
        requires
            old(self).children_in_range(),
            i <= internal_of(old(self).root()).num_keys,
        ensures
            final(self).pager.wf(),
            final(self).same_pages(old(self)),
            ok == old(self).child_ok(i as int),
    {
        proof {
            lemma_layout();
        }
        let root = match self.pager.get_page(0) {
            Ok(page) => page,
            Err(_) => {
                return false;
            },
        };
        let num_keys = root.get_internal_num_keys();
        let child = match root.get_internal_child(i) {
            Ok(child) => child,
            Err(_) => {
                return false;
            },
        };
        let key = if i < num_keys {
            root.get_internal_key(i)
        } else {
            0
        };
        let next_child = if i < num_keys {
            match root.get_internal_child(i + 1) {
                Ok(child) => child,
                Err(_) => {
                    return false;
                },
            }
        } else {
            0
        };
        let ghost at_root = *self;
        proof {
            assert(old(self).child(i as int) == child);
            assert(at_root.same_pages(old(self)));
        }
        let leaf = match self.pager.get_page(child) {
            Ok(page) => page,
            Err(_) => {
                return false;
            },
        };
        let mut ok = check_leaf(leaf);
        if ok {
            let num_cells = leaf.get_leaf_num_cells();
            ok = num_cells >= 1 && !leaf.get_is_root() && leaf.get_parent() == 0;
            if ok {
                if i < num_keys {
                    ok = key == leaf.get_max_key() && leaf.get_leaf_next_leaf() == next_child;
                } else {
                    ok = leaf.get_leaf_next_leaf() == 0;
                }
            }
        }
        let ghost at_leaf = *self;
        proof {
            assert(at_leaf.same_pages(&at_root));
            at_leaf.lemma_same_pages_trans(&at_root, old(self));
        }
        if ok && i < num_keys {
            proof {
                assert(1 <= old(self).child(i + 1) < old(self).pager.num_pages);
            }
            let next = match self.pager.get_page(next_child) {
                Ok(page) => page,
                Err(_) => {
                    return false;
                },
            };
            ok = key < next.get_leaf_key(0);
            proof {
                assert(self.same_pages(&at_leaf));
                self.lemma_same_pages_trans(&at_leaf, old(self));
            }
        }
        ok
    }

    /// Tells whether the table is a well-formed tree. Pages that the tree
    /// holds are brought into the cache; none is changed.
    #[verifier::rlimit(40)]
    pub fn check(&mut self) -> (ok: bool)
        requires
            old(self).pager.wf(),
        ensures
            final(self).pager.wf(),
            final(self).same_pages(old(self)),
            ok == old(self).wf(),
            ok == final(self).wf(),
    {
        proof {
            lemma_layout();
            old(self).lemma_wf_same(old(self));
        }
        if self.root_page_num != 0 {
            return false;
        }
        let num_pages = self.pager.num_pages;
        if num_pages < 1 || num_pages > MAX_PAGES {
            return false;
        }
        if self.pager.file.len() / PAGE_SIZE > num_pages {
            return false;
        }
        let root = match self.pager.get_page(0) {
            Ok(page) => page.clone(),
            Err(_) => {
                return false;
            },
        };
        if !root.get_is_root() {
            return false;
        }
        let num_keys = match root.get_type() {
            NodeType::Leaf => {
                let ok = check_leaf(&root) && root.get_leaf_next_leaf() == 0;
                proof {
                    old(self).lemma_wf_same(self);
                }
                return ok;
            },
            NodeType::Internal => root.get_internal_num_keys(),
        };
        if num_keys < 1 || num_keys > INTERNAL_MAX_CELLS {
            return false;
        }
        proof {
            old(self).lemma_wf_same(self);
        }
        // every child lies on a page in use, and no two on the same
        let mut j: usize = 0;
        while j <= num_keys
            invariant
                self.pager.wf(),
                self.same_pages(old(self)),
                self.wf() == old(self).wf(),
                root.wf(),
                root@ == old(self).root(),
                old(self).branching(),
                num_pages == old(self).pager.num_pages,
                1 <= num_keys <= INTERNAL_MAX_CELLS,
                num_keys == internal_of(root@).num_keys,
                j <= num_keys + 1,
                forall|i: int| 0 <= i < j ==> 1 <= #[trigger] old(self).child(i) < num_pages,
                forall|i: int, k: int|
                    0 <= i < k < j ==> #[trigger] old(self).child(i) != #[trigger] old(self).child(
                        k,
                    ),
            decreases num_keys + 1 - j,
        {
            proof {
                lemma_layout();
            }
            let child = match root.get_internal_child(j) {
                Ok(child) => child,
                Err(_) => {
                    return false;
                },
            };
            assert(child == old(self).child(j as int));
            if child < 1 || child >= num_pages {
                proof {
                    if old(self).wf() {
                        assert(old(self).branching());
                        assert(old(self).child_ok(j as int));
                    }
                }
                return false;
            }
            let mut i: usize = 0;
            while i < j
                invariant
                    self.pager.wf(),
                    self.same_pages(old(self)),
                    self.wf() == old(self).wf(),
                    root.wf(),
                    root@ == old(self).root(),
                    old(self).branching(),
                    1 <= num_keys <= INTERNAL_MAX_CELLS,
                    num_keys == internal_of(root@).num_keys,
                    j <= num_keys,
                    i <= j,
                    child == old(self).child(j as int),
                    forall|k: int| 0 <= k < i ==> #[trigger] old(self).child(k) != child,
                decreases j - i,
            {
                proof {
                    lemma_layout();
                }
                let other = match root.get_internal_child(i) {
                    Ok(child) => child,
                    Err(_) => {
                        return false;
                    },
                };
                assert(other == old(self).child(i as int));
                if other == child {
                    proof {
                        if old(self).wf() {
                            assert(old(self).branching());
                            assert(old(self).child(i as int) != old(self).child(j as int));
                        }
                    }
                    return false;
                }
                i += 1;
            }
            j += 1;
        }
        let ghost at_root = *self;
        proof {
            old(self).lemma_children_in_range(self);
        }
        let mut i: usize = 0;
        while i <= num_keys
            invariant
                old(self).children_in_range(),
                header_of(old(self).root()).is_root,
                forall|i: int, k: int|
                    0 <= i < k <= num_keys ==> #[trigger] old(self).child(i) != #[trigger] old(
                        self,
                    ).child(k),
                self.children_in_range(),
                self.same_pages(old(self)),
                num_keys == internal_of(old(self).root()).num_keys,
                i <= num_keys + 1,
                forall|k: int| 0 <= k < i ==> #[trigger] old(self).child_ok(k),
            decreases num_keys + 1 - i,
        {
            let ghost prev = *self;
            let ok = self.check_child(i);
            proof {
                self.lemma_same_pages_trans(&prev, old(self));
                prev.lemma_child_ok_same(old(self), i as int);
                old(self).lemma_children_in_range(self);
            }
            if !ok {
                proof {
                    old(self).lemma_wf_same(self);
                }
                return false;
            }
            i += 1;
        }
        proof {
            old(self).lemma_wf_same(self);
        }
        true
    }

    /// Over the same pages, the children are in range in the one table if
    /// they are in the other.
    pub proof fn lemma_children_in_range(&self, other: &Table)
        requires
            other.same_pages(self),
            other.pager.wf(),
            self.root_page_num == 0,
            1 <= self.pager.num_pages <= MAX_PAGES,
            self.pager.file_pages() <= self.pager.num_pages,
            self.branching(),
            1 <= internal_of(self.root()).num_keys <= INTERNAL_MAX_CELLS,
            forall|i: int|
                0 <= i <= internal_of(self.root()).num_keys ==> 1 <= #[trigger] self.child(i)
                    < self.pager.num_pages,
        ensures
            other.children_in_range(),
            self.pager.wf() ==> self.children_in_range(),
    {
        assert(other.root() == self.root());
        assert forall|i: int| 0 <= i <= internal_of(other.root()).num_keys implies 1
            <= #[trigger] other.child(i) < other.pager.num_pages by {
            assert(other.child(i) == self.child(i));
        }
    }

    /// Persistence: a well-formed table that has been closed is in its file.
    /// The file is not empty and holds a well-formed tree, and a table
    /// opened over it is well-formed and has the contents of the closed one.
    pub proof fn lemma_persistence(&self, reopened: &Table)
        requires
            self.wf(),
            self.flushed(),
            reopened.opened_from(self.pager.file@),
        ensures
            self.pager.file@.len() > 0,
            self.pager.file@.len() % (PAGE_SIZE as nat) == 0,
            image_ok(self.pager.file@),
            reopened.wf(),
            reopened.contents() == self.contents(),
    {
        let file = self.pager.file@;
        assert forall|other: Table| #[trigger] other.opened_from(file) implies other.wf()
            && other.contents() == self.contents() by {
            self.lemma_reopened(&other);
        }
        self.lemma_reopened(reopened);
    }

    /// Persistence of a record: a record that was inserted before the table
    /// was closed is stored, at its place and as it was serialized, in a
    /// table opened over the file that the closed table left, and it reads
    /// back as itself with its padding. If every value that was stored
    /// before decodes, so does every value stored in the table opened.
    pub proof fn lemma_record_persists(
        &self,
        after: &Table,
        closed: &Table,
        reopened: &Table,
        record: RowView,
    )
        requires
            self.wf(),
            record.fits(),
            self.inserted(after, record.id as usize, record.encoding()),
            closed.wf(),
            closed.flushed(),
            closed.contents() == after.contents(),
            reopened.opened_from(closed.pager.file@),
        ensures
            reopened.wf(),
            reopened.contains_key(record.id as usize),
            reopened.contents()[self.rank(record.id as usize)] == (
                record.id as usize,
                record.encoding(),
            ),
            decodable(record.encoding()),
            decoding(record.encoding()) == record.stored(),
            self.all_decodable() ==> reopened.all_decodable(),
    {
        let key = record.id as usize;
        if self.all_decodable() {
            self.lemma_inserted_decodable(after, record);
        }
        self.lemma_inserted_visible(after, key, record.encoding());
        closed.lemma_persistence(reopened);
        lemma_codec_round_trip(record);
        self.lemma_target(key);
        assert(reopened.contents()[self.rank(key)].0 == key);
    }

    /// A table opened over the file of a closed well-formed table is
    /// well-formed and has the same contents.
    proof fn lemma_reopened(&self, reopened: &Table)
        requires
            self.wf(),
            self.flushed(),
            reopened.opened_from(self.pager.file@),
        ensures
            self.pager.file@.len() >= PAGE_SIZE,
            reopened.wf(),
            reopened.contents() == self.contents(),
    {
        lemma_layout();
        let file = self.pager.file@;
        let blank = zero_bytes(PAGE_SIZE as nat);
        assert(!header_of(blank).is_root);
        assert(header_of(blank).node_type == NodeType::Internal);
        assert(!self.pager.resident(0));
        assert(self.root() == image_page(file, 0));
        assert(reopened.root() == self.root());
        assert forall|p: usize| self.leaves().contains(p) implies p < reopened.pager.num_pages
            && reopened.pager.page(p as int) == self.pager.page(p as int) by {
            let i = choose|i: int| 0 <= i < self.leaves().len() && self.leaves()[i] == p;
            self.lemma_leaf(i);
            assert(!self.pager.resident(p as int));
            assert(self.pager.page(p as int) == image_page(file, p as int));
        }
        self.lemma_same_tree(reopened);
    }
}

} // verus!
