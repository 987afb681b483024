//! The cursor: a position over the leaves of a table. It is a plain value;
//! each of its operations is handed the table that it moves over.

use crate::error::Error;
use crate::page::{
    header_of, internal_of, leaf_of, lemma_layout, max_key_of, slot_of,
    Header, NodeType, LEAF_LEFT_SPLIT_COUNT, LEAF_MAX_CELLS, LEAF_RIGHT_SPLIT_COUNT,
};
use crate::pager::MAX_PAGES;
use crate::row::{decodable, decoding, lemma_encoding_key, Row, RowView};
use crate::insertion::leaf_with;
use crate::table::Table;
use crate::tree::{leaf_cells, lemma_leaf_cells};
use vstd::prelude::*;

verus! {

/// A position in a table: a cell of a leaf, or the end.
#[derive(Clone, Copy, Debug, PartialEq, Eq, Structural)]
pub struct Cursor {
    pub page_num: usize,
    pub cell_num: usize,
    /// The position is past the last cell of the last leaf.
    pub end_of_table: bool,
}

/// No key is below key 0, so its slot is the first.
pub proof fn lemma_slot_of_zero(keys: Seq<usize>, n: int)
    ensures
        slot_of(keys, n, 0) == 0,
    decreases n,
{
    if n > 0 {
        lemma_slot_of_zero(keys, n - 1);
    }
}

impl Cursor {
    /// The cursor stands on the cell `self.cell_num` of the leaf with the
    /// index `slot` among the leaves of `table`.
    pub open spec fn on(&self, table: &Table, slot: int) -> bool {
        &&& 0 <= slot < table.leaves().len()
        &&& self.page_num == table.leaves()[slot]
        &&& self.cell_num < leaf_of(table.pager.page(self.page_num as int)).num_cells
        &&& !self.end_of_table
    }

    /// A cursor on the first cell of the leftmost leaf: at the end at once
    /// if that leaf is empty.
    pub fn from_start(table: &mut Table) -> (res: Result<Cursor, Error>)
        requires
            old(table).wf(),
        ensures
            final(table).wf(),
            final(table).same_pages(old(table)),
            res is Ok,
            res matches Ok(cursor) ==> {
                &&& cursor.page_num == old(table).leaves()[0]
                &&& cursor.cell_num == 0
                &&& cursor.end_of_table == (leaf_of(
                    old(table).pager.page(cursor.page_num as int),
                ).num_cells == 0)
            },
    {
        let root_page_num = table.root_page_num;
        let (page_num, cell_num) = table.find(0, root_page_num)?;
        proof {
            lemma_slot_of_zero(
                internal_of(old(table).root()).keys,
                internal_of(old(table).root()).num_keys as int,
            );
            let leaf = leaf_of(old(table).pager.page(page_num as int));
            lemma_slot_of_zero(leaf.keys, leaf.num_cells as int);
            if old(table).branching() {
                assert(old(table).child_ok(0));
            }
        }
        let ghost found = *table;
        let num_cells = table.pager.get_page(page_num)?.get_leaf_num_cells();
        proof {
            assert(found.same_pages(table));
            found.lemma_same_pages(table);
            assert forall|n: int| #[trigger] table.pager.page(n) == old(table).pager.page(n) by {
                assert(found.pager.page(n) == table.pager.page(n));
            }
        }
        Ok(Cursor { page_num, cell_num, end_of_table: num_cells == 0 })
    }

    /// A cursor on the cell `cell_num` of the page `page_num`. It is at the
    /// end of the table if the page is the last page in use and the cell is
    /// the one after its last cell in use.
    pub fn from_pos(table: &mut Table, page_num: usize, cell_num: usize) -> (res: Result<
        Cursor,
        Error,
    >)
        requires
            old(table).pager.wf(),
        ensures
            old(table).looked_at(final(table), page_num),
            old(table).wf() ==> final(table).wf() && final(table).same_pages(old(table)),
            page_num >= MAX_PAGES ==> res == Err::<Cursor, Error>(Error::PageOutOfBounds(page_num)),
            page_num < MAX_PAGES ==> res == Ok::<Cursor, Error>(
                Cursor {
                    page_num,
                    cell_num,
                    end_of_table: page_num + 1 == old(table).pager.num_pages && leaf_of(
                        old(table).pager.page(page_num as int),
                    ).num_cells == cell_num,
                },
            ),
    {
        let num_pages = table.pager.num_pages;
        let page = table.pager.get_page(page_num)?;
        let is_last_page = page_num + 1 == num_pages;
        let is_last_cell = page.get_leaf_num_cells() == cell_num;
        proof {
            if old(table).wf() {
                old(table).lemma_same_pages(table);
            }
        }
        Ok(Cursor { page_num, cell_num, end_of_table: is_last_page && is_last_cell })
    }

    /// The record in the cell under the cursor.
    pub fn get_row(&self, table: &mut Table) -> (res: Result<Row, Error>)
        requires
            old(table).pager.wf(),
            self.cell_num < LEAF_MAX_CELLS,
        ensures
            old(table).looked_at(final(table), self.page_num),
            old(table).wf() ==> final(table).wf() && final(table).same_pages(old(table)),
            self.page_num >= MAX_PAGES ==> res is Err && res->Err_0 == Error::PageOutOfBounds(
                self.page_num,
            ),
            self.page_num < MAX_PAGES ==> {
                let value = leaf_of(old(table).pager.page(self.page_num as int)).values[self.cell_num as int];
                &&& res is Ok <==> decodable(value)
                &&& res matches Ok(row) ==> row@ == decoding(value)
                &&& res matches Err(e) ==> e == Error::Decode
            },
    {
        let page = table.pager.get_page(self.page_num)?;
        let value = page.get_leaf_value(self.cell_num);
        proof {
            if old(table).wf() {
                old(table).lemma_same_pages(table);
            }
        }
        Row::deserialize(value.as_slice())
    }

    /// Moves the cursor to the next cell: the next one of its leaf, or the
    /// first one of the next leaf, or the end if there is no next leaf.
    pub fn advance(&mut self, table: &mut Table) -> (res: Result<(), Error>)
        requires
            old(table).pager.wf(),
            old(self).cell_num < usize::MAX,
        ensures
            old(table).looked_at(final(table), old(self).page_num),
            old(table).wf() ==> final(table).wf() && final(table).same_pages(old(table)),
            old(self).page_num >= MAX_PAGES ==> res == Err::<(), Error>(
                Error::PageOutOfBounds(old(self).page_num),
            ) && *final(self) == *old(self),
            old(self).page_num < MAX_PAGES ==> res is Ok && ({
                let leaf = leaf_of(old(table).pager.page(old(self).page_num as int));
                if old(self).cell_num + 1 < leaf.num_cells {
                    *final(self) == (Cursor { cell_num: (old(self).cell_num + 1) as usize, ..*old(self) })
                } else if leaf.next_leaf == 0 {
                    *final(self) == (Cursor {
                        cell_num: (old(self).cell_num + 1) as usize,
                        end_of_table: true,
                        ..*old(self)
                    })
                } else {
                    *final(self) == (Cursor { page_num: leaf.next_leaf, cell_num: 0, ..*old(self) })
                }
            }),
    {
        let page_num = self.page_num;
        let page = table.pager.get_page(page_num)?;
        self.cell_num += 1;
        if self.cell_num >= page.get_leaf_num_cells() {
            // advance to the next leaf node
            let next_page_num = page.get_leaf_next_leaf();
            if next_page_num == 0 {
                self.end_of_table = true;
            } else {
                self.page_num = next_page_num;
                self.cell_num = 0;
            }
        }
        proof {
            if old(table).wf() {
                old(table).lemma_same_pages(table);
            }
        }
        Ok(())
    }

    /// The cursor stands where the record with the key `key`, which is not
    /// stored, has to be put in.
    pub open spec fn at_place_of(&self, table: &Table, key: usize) -> bool {
        &&& self.page_num == table.target(key)
        &&& self.cell_num == table.target_cell(key)
    }

    /// The page under the cursor, read as a leaf, has a cell left.
    pub open spec fn has_room(&self, table: &Table) -> bool {
        leaf_of(table.pager.page(self.page_num as int)).num_cells < LEAF_MAX_CELLS
    }

    /// The record `value` can be put into the tree at the cursor under the
    /// key `key`: the table is well-formed, the key is the id of the record
    /// and not stored, and the cursor stands at its place.
    pub open spec fn fits_tree(&self, table: &Table, key: usize, value: RowView) -> bool {
        &&& table.wf()
        &&& key == value.id
        &&& !table.contains_key(key)
        &&& self.at_place_of(table, key)
    }

    /// Puts the record `value` with the key `key` into the leaf under the
    /// cursor, at the cursor: the cells from there on move one up, and
    /// nothing else changes. A leaf without a cell left is split instead,
    /// as `leaf_split_and_insert` does it once the leaf is in the cache.
    ///
    /// Where the table is well-formed, the key is the id of the record and
    /// not stored, and the cursor stands at its place, the table is
    /// well-formed afterwards and holds the record.
    #[verifier::rlimit(60)]
    pub fn leaf_insert(&mut self, table: &mut Table, key: usize, value: &Row) -> (res: Result<
        (),
        Error,
    >)
        requires
            old(table).pager.wf(),
            value@.fits(),
            old(self).page_num < MAX_PAGES ==> if old(self).has_room(old(table)) {
                old(self).cell_num <= leaf_of(
                    old(table).pager.page(old(self).page_num as int),
                ).num_cells
            } else {
                old(table).can_split(old(self).page_num, old(self).cell_num)
            },
        ensures
            *final(self) == *old(self),
            final(table).pager.wf(),
            old(self).page_num >= MAX_PAGES ==> res == Err::<(), Error>(
                Error::PageOutOfBounds(old(self).page_num),
            ) && *final(table) == *old(table),
            old(self).page_num < MAX_PAGES && old(self).has_room(old(table)) ==> {
                let page_num = old(self).page_num as int;
                &&& res is Ok
                &&& final(table).root_page_num == old(table).root_page_num
                &&& final(table).pager.file@ == old(table).pager.file@
                &&& final(table).pager.num_pages == old(table).pager.num_pages_after_get(page_num)
                &&& leaf_with(
                    old(table).pager.page(page_num),
                    final(table).pager.page(page_num),
                    old(self).cell_num as int,
                    (key, value@.encoding()),
                )
                &&& forall|m: int|
                    m != page_num ==> #[trigger] final(table).pager.page(m) == old(
                        table,
                    ).pager.page(m)
            },
            old(self).page_num < MAX_PAGES && !old(self).has_room(old(table)) ==> exists|
                loaded: Table,
            |
                #[trigger] old(table).same_pages(&loaded) && loaded.split_outcome(
                    final(table),
                    old(self).page_num,
                    old(self).cell_num as int,
                    (key, value@.encoding()),
                    res,
                ),
            old(self).fits_tree(old(table), key, value@) ==> {
                &&& res is Ok <==> old(table).place_error(key) is None
                &&& res matches Err(e) ==> old(table).place_error(key) == Some(e) && old(
                    table,
                ).insert_failed(final(table), key, value@.encoding(), e)
                &&& res is Ok ==> old(table).inserted(final(table), key, value@.encoding())
            },
    {
        let ghost in_tree = self.fits_tree(old(table), key, value@);
        proof {
            lemma_layout();
            lemma_encoding_key(value@);
            if in_tree {
                old(table).lemma_target(key);
            }
        }
        let page = table.pager.get_page(self.page_num)?;
        let num_cells = page.get_leaf_num_cells();
        if num_cells >= LEAF_MAX_CELLS {
            // Node full
            let ghost loaded = *table;
            proof {
                assert(old(table).same_pages(&loaded));
                if in_tree {
                    old(table).lemma_same_pages(table);
                    table.lemma_target(key);
                }
            }
            let res = self.leaf_split_and_insert(table, key, value);
            proof {
                if in_tree {
                    if res is Ok {
                        old(table).lemma_inserted_same(&loaded, table, key, value@.encoding());
                    }
                    if let Err(e) = res {
                        old(table).lemma_insert_failed_same(
                            &loaded,
                            table,
                            key,
                            value@.encoding(),
                            e,
                        );
                    }
                }
            }
            return res;
        }
        let ghost before = *page;
        if self.cell_num < num_cells {
            // Make room for new cell
            page.leaf_shift_up(self.cell_num, num_cells);
        }
        page.set_leaf_num_cells(num_cells + 1);
        page.set_leaf_key(self.cell_num, key);
        page.set_leaf_value(self.cell_num, value.serialize());
        proof {
            let c = self.cell_num as int;
            let cell = (key, value@.encoding());
            lemma_leaf_cells(before@);
            lemma_leaf_cells(page@);
            assert(leaf_cells(page@) =~= leaf_cells(before@).insert(c, cell));
            assert(leaf_with(before@, page@, c, cell));
        }
        proof {
            if self.fits_tree(old(table), key, value@) {
                old(table).lemma_insert_in_place(table, key, value@.encoding());
            }
        }
        Ok(())
    }

    /// Deals out anew the cells of the full leaf under the cursor and the
    /// cell of the record `value` with the key `key`, put in at the cursor:
    /// the lower ones stay, the upper ones go to a fresh leaf on the first
    /// page that was not in use, which becomes the sibling to the right.
    /// Gives the page of the fresh leaf, the last key of the leaf before and
    /// after, and the root flag and the parent of the leaf.
    #[verifier::rlimit(60)]
    fn deal_out(&self, table: &mut Table, key: usize, value: &Row) -> (res: Result<
        (usize, usize, usize, bool, usize),
        Error,
    >)
        requires
            value@.fits(),
            old(table).can_split(self.page_num, self.cell_num),
        ensures
            final(table).pager.wf(),
            old(table).pager.num_pages >= MAX_PAGES ==> res is Err && res->Err_0
                == Error::PageOutOfBounds(old(table).pager.num_pages) && *final(table) == *old(
                table,
            ),
            old(table).pager.num_pages < MAX_PAGES && self.page_num >= MAX_PAGES ==> res is Err
                && res->Err_0 == Error::PageOutOfBounds(self.page_num) && old(
                table,
            ).fresh_leaf_made(final(table)),
            old(table).pager.num_pages < MAX_PAGES && self.page_num < MAX_PAGES ==> res is Ok && ({
                let leaf = old(table).pager.page(self.page_num as int);
                &&& res->Ok_0.0 == old(table).pager.num_pages
                &&& res->Ok_0.1 == max_key_of(leaf)
                &&& res->Ok_0.2 == max_key_of(final(table).pager.page(self.page_num as int))
                &&& res->Ok_0.3 == header_of(leaf).is_root
                &&& res->Ok_0.4 == header_of(leaf).parent
                &&& old(table).split_at(
                    final(table),
                    self.page_num,
                    self.cell_num as int,
                    (key, value@.encoding()),
                )
            }),
    {
        let ghost start = *old(table);
        let ghost cell = (key, value@.encoding());
        let ghost all = leaf_cells(start.pager.page(self.page_num as int)).insert(
            self.cell_num as int,
            cell,
        );
        proof {
            lemma_layout();
            lemma_encoding_key(value@);
            if self.page_num < MAX_PAGES {
                lemma_leaf_cells(start.pager.page(self.page_num as int));
            }
        }
        let new_page_num = table.pager.get_unused_page_num();
        let new_page = table.pager.get_page(new_page_num)?;
        new_page.init_leaf();
        table.pager.num_pages += 1;

        let old_page_clone = table.pager.get_page(self.page_num)?.clone();
        let next_page_num = old_page_clone.get_leaf_next_leaf();
        let old_parent = old_page_clone.get_parent();
        let old_max_key = old_page_clone.get_max_key();
        let mut i: usize = LEAF_MAX_CELLS + 1;
        while i > 0
            invariant
                0 <= i <= LEAF_MAX_CELLS + 1,
                value@.fits(),
                cell == (key, value@.encoding()),
                all == leaf_cells(start.pager.page(self.page_num as int)).insert(
                    self.cell_num as int,
                    cell,
                ),
                all.len() == LEAF_MAX_CELLS + 1,
                self.cell_num <= LEAF_MAX_CELLS,
                self.page_num < MAX_PAGES,
                self.page_num != new_page_num,
                new_page_num == start.pager.num_pages,
                new_page_num < MAX_PAGES,
                old_page_clone.wf(),
                old_page_clone@ == start.pager.page(self.page_num as int),
                leaf_of(old_page_clone@).num_cells == LEAF_MAX_CELLS,
                table.pager.wf(),
                table.root_page_num == start.root_page_num,
                table.pager.num_pages == start.pager.num_pages + 1,
                table.pager.file@ == start.pager.file@,
                table.pager.resident(self.page_num as int),
                table.pager.resident(new_page_num as int),
                leaf_of(table.pager.page(new_page_num as int)).num_cells == 0,
                leaf_of(table.pager.page(new_page_num as int)).next_leaf == 0,
                forall|m: int|
                    m != self.page_num && m != new_page_num ==> #[trigger] table.pager.page(m)
                        == start.pager.page(m),
                header_of(table.pager.page(self.page_num as int)) == header_of(
                    start.pager.page(self.page_num as int),
                ),
                leaf_of(table.pager.page(self.page_num as int)).next_leaf == leaf_of(
                    start.pager.page(self.page_num as int),
                ).next_leaf,
                header_of(table.pager.page(new_page_num as int)) == (Header {
                    node_type: NodeType::Leaf,
                    is_root: false,
                    parent: 0,
                }),
                forall|j: int|
                    i <= j < LEAF_LEFT_SPLIT_COUNT ==> (
                    #[trigger] leaf_of(table.pager.page(self.page_num as int)).keys[j],
                    leaf_of(table.pager.page(self.page_num as int)).values[j],
                    ) == all[j],
                forall|j: int|
                    i <= j + LEAF_LEFT_SPLIT_COUNT <= LEAF_MAX_CELLS && 0 <= j ==> (
                    #[trigger] leaf_of(table.pager.page(new_page_num as int)).keys[j],
                    leaf_of(table.pager.page(new_page_num as int)).values[j],
                    ) == all[j + LEAF_LEFT_SPLIT_COUNT],
            decreases i,
        {
            proof {
                lemma_layout();
                lemma_encoding_key(value@);
                lemma_leaf_cells(old_page_clone@);
            }
            let ghost prev = *table;
            i -= 1;
            let cell_num = i % LEAF_LEFT_SPLIT_COUNT;

            let source = if i == self.cell_num {
                (key, value.serialize())
            } else if i > self.cell_num {
                old_page_clone.get_leaf_cell(i - 1)
            } else {
                old_page_clone.get_leaf_cell(i)
            };
            assert((source.0, source.1@) == all[i as int]);
            if i >= LEAF_LEFT_SPLIT_COUNT {
                table.pager.get_page(new_page_num)?.set_leaf_cell(cell_num, source);
            } else {
                table.pager.get_page(self.page_num)?.set_leaf_cell(cell_num, source);
            }
            proof {
                assert forall|m: int|
                    m != self.page_num && m != new_page_num implies #[trigger] table.pager.page(m)
                    == start.pager.page(m) by {
                    assert(prev.pager.page(m) == start.pager.page(m));
                }
            }
        }
        let ghost dealt = *table;

        let new_page = table.pager.get_page(new_page_num)?;  // the same as 'new_page' above
        new_page.set_leaf_num_cells(LEAF_RIGHT_SPLIT_COUNT);
        new_page.set_leaf_next_leaf(next_page_num);
        new_page.set_parent(old_parent);

        let old_page = table.pager.get_page(self.page_num)?;
        old_page.set_leaf_num_cells(LEAF_LEFT_SPLIT_COUNT);
        old_page.set_leaf_next_leaf(new_page_num);
        let new_max_key = old_page.get_max_key();
        let old_is_root = old_page.get_is_root();
        let parent_page_num = old_page.get_parent();
        proof {
            lemma_leaf_cells(table.pager.page(self.page_num as int));
            lemma_leaf_cells(table.pager.page(new_page_num as int));
            assert(leaf_cells(table.pager.page(self.page_num as int)) =~= all.subrange(
                0,
                LEAF_LEFT_SPLIT_COUNT as int,
            ));
            assert(leaf_cells(table.pager.page(new_page_num as int)) =~= all.subrange(
                LEAF_LEFT_SPLIT_COUNT as int,
                LEAF_MAX_CELLS + 1,
            ));
            assert forall|m: int|
                m != self.page_num && m != new_page_num implies #[trigger] table.pager.page(m)
                == start.pager.page(m) by {
                assert(dealt.pager.page(m) == start.pager.page(m));
            }
            assert(header_of(start.pager.page(self.page_num as int)).parent == old_parent);
        }
        Ok((new_page_num, old_max_key, new_max_key, old_is_root, parent_page_num))
    }

    /// Splits the full leaf under the cursor around the record `value` with
    /// the key `key`, put in at the cursor, and mends the tree above it. The
    /// cells of the leaf and the new one, in order, are dealt out anew: the
    /// lower ones stay, the upper ones go to a fresh leaf, which becomes the
    /// sibling to the right. A leaf flagged as root gets a new root above
    /// it; any other has its key in its parent lowered, and the parent gets
    /// the fresh leaf as one more child.
    ///
    /// Where the table is well-formed, the key is the id of the record and
    /// not stored, and the cursor stands at its place, the table is
    /// well-formed afterwards and holds the record.
    #[verifier::rlimit(60)]
    pub fn leaf_split_and_insert(&mut self, table: &mut Table, key: usize, value: &Row) -> (res:
        Result<(), Error>)
        requires
            value@.fits(),
            old(table).can_split(old(self).page_num, old(self).cell_num),
        ensures
            *final(self) == *old(self),
            final(table).pager.wf(),
            old(table).split_outcome(
                final(table),
                old(self).page_num,
                old(self).cell_num as int,
                (key, value@.encoding()),
                res,
            ),
            old(self).fits_tree(old(table), key, value@) && old(table).target_full(key) ==> {
                &&& res is Ok <==> old(table).place_error(key) is None
                &&& res matches Err(e) ==> old(table).place_error(key) == Some(e) && old(
                    table,
                ).insert_failed(final(table), key, value@.encoding(), e)
                &&& res is Ok ==> old(table).inserted(final(table), key, value@.encoding())
            },
    {
        let ghost start = *old(table);
        let ghost in_tree = self.fits_tree(&start, key, value@) && start.target_full(key);
        let ghost encoded = value@.encoding();
        proof {
            lemma_layout();
            lemma_encoding_key(value@);
            if in_tree {
                start.lemma_target(key);
                start.lemma_leaf(start.leaf_slot(key));
            }
        }
        let (new_page_num, old_max_key, new_max_key, old_is_root, parent_page_num) =
            self.deal_out(table, key, value)?;
        let ghost mid = *table;
        proof {
            if in_tree {
                assert(start.split_of(&mid, key, encoded));
                start.lemma_split_halves(&mid, key, encoded);
                if start.branching() {
                    assert(start.child_ok(start.leaf_slot(key)));
                }
            }
        }
        if old_is_root {
            let res = table.new_root(new_page_num);
            proof {
                assert(mid.mended(table, self.page_num, new_page_num, old_max_key, res));
                if in_tree && res is Ok {
                    start.lemma_split_root(&mid, table, key, encoded);
                    assert(start.placed(table, key, encoded));
                }
            }
            res
        } else {
            let parent = table.pager.get_page(parent_page_num)?;
            parent.internal_update_key(old_max_key, new_max_key);
            let ghost par = *table;
            proof {
                assert(mid.key_lowered(&par, parent_page_num, old_max_key, new_max_key));
                if in_tree {
                    start.lemma_keys_increasing();
                    assert(mid.root() == start.root());
                    assert(start.separator_lowered(&mid, &par, key));
                    let last = internal_of(start.root()).num_keys as int;
                    assert(start.child_ok(last));
                    assert(par.pager.page(start.child(last) as int) == mid.pager.page(
                        start.child(last) as int,
                    ));
                }
            }
            let res = table.internal_insert(parent_page_num, new_page_num);
            proof {
                assert(par.child_put(table, parent_page_num, new_page_num, res));
                assert(mid.mended(table, self.page_num, new_page_num, old_max_key, res));
                if in_tree && res is Ok {
                    start.lemma_split_child_shape(&mid, &par, table, key, encoded);
                    start.lemma_split_child_wf(&mid, table, key, encoded);
                    start.lemma_split_child_contents(&mid, table, key, encoded);
                    assert(start.placed(table, key, encoded));
                }
            }
            res
        }
    }
}

} // verus!
