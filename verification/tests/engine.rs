use resql::cursor::Cursor;
use resql::error::Error;
use resql::page::{NodeType, Page, LEAF_MAX_CELLS, PAGE_SIZE};
use resql::pager::MAX_PAGES;
use resql::row::Row;
use resql::table::Table;

fn row(id: u32) -> Row {
    Row { id, username: format!("user{id}"), email: format!("person{id}@example.com") }
}

fn fresh() -> Table {
    Table::open(Vec::new()).unwrap()
}

fn ids(table: &mut Table) -> Vec<u32> {
    table.select().unwrap().iter().map(|r| r.id).collect()
}

fn page(table: &mut Table, n: usize) -> Page {
    table.pager.get_page(n).unwrap().clone()
}

#[test]
fn open_empty_file_gives_empty_root_leaf() {
    let mut table = fresh();
    assert_eq!(table.root_page_num, 0);
    assert_eq!(table.pager.num_pages, 1);
    let root = page(&mut table, 0);
    assert_eq!(root.get_type(), NodeType::Leaf);
    assert!(root.get_is_root());
    assert_eq!(root.get_leaf_num_cells(), 0);
    assert_eq!(root.get_leaf_next_leaf(), 0);
    assert!(table.select().unwrap().is_empty());
}

#[test]
fn open_rejects_partial_page() {
    assert_eq!(Table::open(vec![0u8; PAGE_SIZE + 1]).err(), Some(Error::CorruptFile));
    assert_eq!(Table::open(vec![0u8; 100]).err(), Some(Error::CorruptFile));
}

#[test]
fn open_takes_any_file_of_whole_pages() {
    let mut table = Table::open(vec![0u8; PAGE_SIZE]).unwrap();
    assert_eq!(table.root_page_num, 0);
    assert_eq!(table.pager.num_pages, 1);
    assert!(table.pager.pages.iter().all(|p| p.is_none()));
    assert_eq!(table.pager.file, vec![0u8; PAGE_SIZE]);
    // it holds no tree: the root is not flagged as one
    assert!(!table.check());
    let mut table = Table::open(vec![0xffu8; 3 * PAGE_SIZE]).unwrap();
    assert_eq!(table.pager.num_pages, 3);
    assert_eq!(page(&mut table, 2).0, vec![0xffu8; PAGE_SIZE]);
    assert!(!table.check());
}

#[test]
fn insert_then_select_yields_the_row() {
    let mut table = fresh();
    table.insert(&row(1)).unwrap();
    let rows = table.select().unwrap();
    assert_eq!(rows.len(), 1);
    assert_eq!(rows[0].id, 1);
    assert_eq!(rows[0].username.trim_matches('\0'), "user1");
    assert_eq!(rows[0].email.trim_matches('\0'), "person1@example.com");
}

#[test]
fn select_is_sorted_whatever_the_insertion_order() {
    let mut table = fresh();
    for id in [1, 2, 4, 5, 3] {
        table.insert(&row(id)).unwrap();
    }
    assert_eq!(ids(&mut table), vec![1, 2, 3, 4, 5]);
    let mut table = fresh();
    for id in [9, 7, 8, 1, 30, 2, 29, 3, 28, 4, 27, 5, 26, 6, 25, 10, 24, 11] {
        table.insert(&row(id)).unwrap();
    }
    let got = ids(&mut table);
    let mut sorted = got.clone();
    sorted.sort();
    assert_eq!(got, sorted);
    assert_eq!(got.len(), 18);
}

#[test]
fn duplicate_key_is_refused_and_changes_nothing() {
    let mut table = fresh();
    for id in [1, 2, 4, 5, 3] {
        table.insert(&row(id)).unwrap();
    }
    let before = page(&mut table, 0);
    let other = Row { id: 2, username: "x".into(), email: "y".into() };
    assert_eq!(table.insert(&other), Err(Error::DuplicateKey(2)));
    assert_eq!(page(&mut table, 0).0, before.0);
    assert_eq!(table.pager.num_pages, 1);
    let rows = table.select().unwrap();
    assert_eq!(rows.len(), 5);
    assert_eq!(rows[1].username.trim_matches('\0'), "user2");
}

#[test]
fn thirteen_rows_fit_in_the_root_leaf() {
    assert_eq!(LEAF_MAX_CELLS, 13);
    let mut table = fresh();
    for id in 1..=13 {
        table.insert(&row(id)).unwrap();
    }
    assert_eq!(table.pager.num_pages, 1);
    let root = page(&mut table, 0);
    assert_eq!(root.get_type(), NodeType::Leaf);
    assert_eq!(root.get_leaf_num_cells(), 13);
}

#[test]
fn the_fourteenth_row_splits_the_root() {
    let mut table = fresh();
    for id in 1..=14 {
        table.insert(&row(id)).unwrap();
    }
    assert_eq!(table.pager.num_pages, 3);
    let root = page(&mut table, 0);
    assert_eq!(root.get_type(), NodeType::Internal);
    assert!(root.get_is_root());
    assert_eq!(root.get_internal_num_keys(), 1);
    assert_eq!(root.get_internal_key(0), 7);
    let left = root.get_internal_child(0).unwrap();
    let right = root.get_internal_child(1).unwrap();
    assert_eq!(right, root.get_internal_right_child());
    assert_eq!((left, right), (2, 1));
    let left_page = page(&mut table, left);
    let right_page = page(&mut table, right);
    assert_eq!(left_page.get_type(), NodeType::Leaf);
    assert_eq!(right_page.get_type(), NodeType::Leaf);
    assert!(!left_page.get_is_root());
    assert!(!right_page.get_is_root());
    assert_eq!(left_page.get_parent(), 0);
    assert_eq!(right_page.get_parent(), 0);
    assert_eq!(left_page.get_leaf_num_cells(), 7);
    assert_eq!(right_page.get_leaf_num_cells(), 7);
    assert_eq!(left_page.get_leaf_next_leaf(), right);
    assert_eq!(right_page.get_leaf_next_leaf(), 0);
    for i in 0..7 {
        assert_eq!(left_page.get_leaf_key(i), i + 1);
        assert_eq!(right_page.get_leaf_key(i), i + 8);
    }
    assert_eq!(left_page.get_max_key(), 7);
    assert_eq!(right_page.get_max_key(), 14);
    assert_eq!(ids(&mut table), (1..=14).collect::<Vec<u32>>());
}

#[test]
fn the_fifteenth_row_needs_no_internal_split() {
    let mut table = fresh();
    for id in 1..=15 {
        assert_eq!(table.insert(&row(id)), Ok(()));
    }
    assert_eq!(ids(&mut table), (1..=15).collect::<Vec<u32>>());
    assert_eq!(table.pager.num_pages, 3);
}

#[test]
fn find_gives_leaf_and_cell() {
    let mut table = fresh();
    for id in 1..=14 {
        table.insert(&row(2 * id)).unwrap();
    }
    // left leaf (page 2) holds 2..=14, right leaf (page 1) holds 16..=28
    assert_eq!(table.find(2, 0), Ok((2, 0)));
    assert_eq!(table.find(14, 0), Ok((2, 6)));
    assert_eq!(table.find(13, 0), Ok((2, 6)));
    assert_eq!(table.find(15, 0), Ok((1, 0)));
    assert_eq!(table.find(16, 0), Ok((1, 0)));
    assert_eq!(table.find(28, 0), Ok((1, 6)));
    assert_eq!(table.find(100, 0), Ok((1, 7)));
    assert_eq!(table.find(0, 0), Ok((2, 0)));
    assert_eq!(table.find(20, 1), Ok((1, 2)));
}

#[test]
fn ascending_inserts_fill_the_root_with_three_keys() {
    let mut table = fresh();
    // 14 rows split the root leaf; the right leaf then splits at 21 and at 28 rows
    for id in 1..=34 {
        assert_eq!(table.insert(&row(id)), Ok(()), "row {id}");
    }
    let root = page(&mut table, 0);
    assert_eq!(root.get_internal_num_keys(), 3);
    assert_eq!(
        (root.get_internal_key(0), root.get_internal_key(1), root.get_internal_key(2)),
        (7, 14, 21)
    );
    assert_eq!(ids(&mut table), (1..=34).collect::<Vec<u32>>());
    // the right leaf is full now: one more row would have to split the root
    assert_eq!(table.insert(&row(35)), Err(Error::InternalSplit));
}

#[test]
fn a_split_left_of_the_right_child_shifts_the_cells_of_the_root() {
    let mut table = fresh();
    for id in 1..=14 {
        table.insert(&row(10 * id)).unwrap();
    }
    // left leaf: 10..=70, right leaf: 80..=140; fill the left leaf
    for id in [11, 12, 13, 14, 15, 16] {
        table.insert(&row(id)).unwrap();
    }
    assert_eq!(page(&mut table, 0).get_internal_num_keys(), 1);
    table.insert(&row(17)).unwrap();
    let root = page(&mut table, 0);
    assert_eq!(root.get_internal_num_keys(), 2);
    let left = root.get_internal_child(0).unwrap();
    let middle = root.get_internal_child(1).unwrap();
    let right = root.get_internal_child(2).unwrap();
    assert_eq!((left, middle, right), (2, 3, 1));
    assert_eq!(root.get_internal_key(0), page(&mut table, left).get_max_key());
    assert_eq!(root.get_internal_key(1), 70);
    assert_eq!(page(&mut table, middle).get_max_key(), 70);
    assert_eq!(page(&mut table, left).get_leaf_next_leaf(), middle);
    assert_eq!(page(&mut table, middle).get_leaf_next_leaf(), right);
    assert_eq!(page(&mut table, right).get_leaf_next_leaf(), 0);
    let got = ids(&mut table);
    let mut expected: Vec<u32> = (1..=14).map(|i| 10 * i).chain(11..=17).collect();
    expected.sort();
    assert_eq!(got, expected);
    assert!(table.check());
}

#[test]
fn check_accepts_what_insert_builds() {
    let mut table = fresh();
    assert!(table.check());
    for id in (1..=30).rev() {
        table.insert(&row(id)).unwrap();
        assert!(table.check(), "after row {id}");
    }
}

#[test]
fn close_writes_every_page_and_reopen_finds_the_rows() {
    let mut table = fresh();
    for id in 1..=20 {
        table.insert(&row(id)).unwrap();
    }
    let pages = table.pager.num_pages;
    table.close();
    assert_eq!(table.pager.file.len(), pages * PAGE_SIZE);
    assert!(table.pager.pages.iter().all(|p| p.is_none()));
    let mut again = Table::open(table.pager.file.clone()).unwrap();
    assert_eq!(again.pager.num_pages, pages);
    assert_eq!(ids(&mut again), (1..=20).collect::<Vec<u32>>());
    again.insert(&row(21)).unwrap();
    again.close();
    let mut third = Table::open(again.pager.file.clone()).unwrap();
    assert_eq!(ids(&mut third), (1..=21).collect::<Vec<u32>>());
}

#[test]
fn one_row_survives_close_and_reopen() {
    let mut table = fresh();
    table.insert(&row(1)).unwrap();
    table.close();
    let mut again = Table::open(table.pager.file.clone()).unwrap();
    let rows = again.select().unwrap();
    assert_eq!(rows.len(), 1);
    assert_eq!(rows[0].id, 1);
    assert_eq!(rows[0].username.trim_matches('\0'), "user1");
    assert_eq!(rows[0].email.trim_matches('\0'), "person1@example.com");
}

#[test]
fn cursor_walks_the_leaves_in_order() {
    let mut table = fresh();
    for id in 1..=14 {
        table.insert(&row(id)).unwrap();
    }
    let mut cursor = Cursor::from_start(&mut table).unwrap();
    assert_eq!((cursor.page_num, cursor.cell_num, cursor.end_of_table), (2, 0, false));
    for _ in 0..6 {
        cursor.advance(&mut table).unwrap();
    }
    assert_eq!((cursor.page_num, cursor.cell_num), (2, 6));
    assert_eq!(cursor.get_row(&mut table).unwrap().id, 7);
    cursor.advance(&mut table).unwrap();
    assert_eq!((cursor.page_num, cursor.cell_num, cursor.end_of_table), (1, 0, false));
    assert_eq!(cursor.get_row(&mut table).unwrap().id, 8);
    for _ in 0..7 {
        cursor.advance(&mut table).unwrap();
    }
    assert!(cursor.end_of_table);
}

#[test]
fn cursor_on_empty_table_is_at_the_end() {
    let mut table = fresh();
    let cursor = Cursor::from_start(&mut table).unwrap();
    assert_eq!(cursor, Cursor { page_num: 0, cell_num: 0, end_of_table: true });
}

#[test]
fn cursor_from_pos_stands_where_told() {
    let mut table = fresh();
    table.insert(&row(1)).unwrap();
    // the one page is the last page, and cell 1 is the one after its last cell
    let cursor = Cursor::from_pos(&mut table, 0, 1).unwrap();
    assert_eq!(cursor, Cursor { page_num: 0, cell_num: 1, end_of_table: true });
    let cursor = Cursor::from_pos(&mut table, 0, 0).unwrap();
    assert_eq!(cursor, Cursor { page_num: 0, cell_num: 0, end_of_table: false });
    for id in 2..=14 {
        table.insert(&row(id)).unwrap();
    }
    // three pages now: the root, the right leaf on page 1, the left leaf on page 2
    let cursor = Cursor::from_pos(&mut table, 1, 7).unwrap();
    assert_eq!(cursor, Cursor { page_num: 1, cell_num: 7, end_of_table: false });
    let cursor = Cursor::from_pos(&mut table, 2, 7).unwrap();
    assert_eq!(cursor, Cursor { page_num: 2, cell_num: 7, end_of_table: true });
    let cursor = Cursor::from_pos(&mut table, 2, 6).unwrap();
    assert_eq!(cursor, Cursor { page_num: 2, cell_num: 6, end_of_table: false });
    assert_eq!(
        Cursor::from_pos(&mut table, MAX_PAGES, 0),
        Err(Error::PageOutOfBounds(MAX_PAGES))
    );
}

#[test]
fn select_reports_a_value_that_is_not_utf8() {
    let mut table = fresh();
    table.insert(&row(1)).unwrap();
    let page = table.pager.get_page(0).unwrap();
    let mut value = page.get_leaf_value(0);
    value[5] = 0xff;
    page.set_leaf_value(0, value);
    assert_eq!(table.select().err(), Some(Error::Decode));
}

#[test]
fn a_split_fails_when_the_cache_has_no_slot_left() {
    let mut table = fresh();
    for id in 1..=13 {
        table.insert(&row(id)).unwrap();
    }
    table.pager.num_pages = MAX_PAGES;
    assert!(table.check());
    let before = page(&mut table, 0);
    assert_eq!(table.insert(&row(14)), Err(Error::PageOutOfBounds(MAX_PAGES)));
    assert_eq!(page(&mut table, 0).0, before.0);
    assert_eq!(table.pager.num_pages, MAX_PAGES);
    assert!(table.check());
    assert_eq!(ids(&mut table), (1..=13).collect::<Vec<u32>>());
}

#[test]
fn a_new_root_fails_when_the_cache_has_one_slot_left() {
    let mut table = fresh();
    for id in 1..=13 {
        table.insert(&row(id)).unwrap();
    }
    table.pager.num_pages = MAX_PAGES - 1;
    assert_eq!(table.insert(&row(14)), Err(Error::PageOutOfBounds(MAX_PAGES)));
    // the leaf is split, but the tree above it is not mended
    assert_eq!(table.pager.num_pages, MAX_PAGES);
    let root = page(&mut table, 0);
    assert_eq!(root.get_type(), NodeType::Leaf);
    assert_eq!(root.get_leaf_num_cells(), 7);
    assert_eq!(root.get_leaf_next_leaf(), MAX_PAGES - 1);
    assert_eq!(page(&mut table, MAX_PAGES - 1).get_leaf_num_cells(), 7);
}

#[test]
fn new_root_takes_the_next_unused_page_for_the_left_child() {
    let mut table = fresh();
    for id in 1..=13 {
        table.insert(&row(id)).unwrap();
    }
    // split by hand: page 1 becomes the right leaf
    let right = table.pager.get_unused_page_num();
    table.pager.get_page(right).unwrap().init_leaf();
    table.pager.num_pages += 1;
    let cell = page(&mut table, 0).get_leaf_cell(12);
    let fresh_leaf = table.pager.get_page(right).unwrap();
    fresh_leaf.set_leaf_cell(0, cell);
    fresh_leaf.set_leaf_num_cells(1);
    table.pager.get_page(0).unwrap().set_leaf_num_cells(12);
    let unused = table.pager.get_unused_page_num();
    assert_eq!(table.new_root(right), Ok(()));
    assert_eq!(table.pager.num_pages, unused + 1);
    let root = page(&mut table, 0);
    assert_eq!(root.get_type(), NodeType::Internal);
    assert!(root.get_is_root());
    assert_eq!(root.get_internal_num_keys(), 1);
    assert_eq!(root.get_internal_child(0), Ok(unused));
    assert_eq!(root.get_internal_key(0), 12);
    assert_eq!(root.get_internal_right_child(), right);
    let left = page(&mut table, unused);
    assert!(!left.get_is_root());
    assert_eq!(left.get_parent(), 0);
    assert_eq!(left.get_leaf_num_cells(), 12);
    assert_eq!(page(&mut table, right).get_parent(), 0);
}

#[test]
fn internal_insert_puts_a_child_at_its_slot() {
    let mut table = fresh();
    for id in 1..=14 {
        table.insert(&row(10 * id)).unwrap();
    }
    // a leaf by hand on page 3 with the keys 71..=75, to go between the two leaves
    let fresh_page = table.pager.get_unused_page_num();
    assert_eq!(fresh_page, 3);
    let cell = page(&mut table, 1).get_leaf_cell(0);
    let leaf = table.pager.get_page(fresh_page).unwrap();
    leaf.init_leaf();
    for i in 0..5 {
        leaf.set_leaf_cell(i, (71 + i, cell.1.clone()));
    }
    leaf.set_leaf_num_cells(5);
    table.pager.num_pages += 1;
    assert_eq!(table.internal_insert(0, fresh_page), Ok(()));
    let root = page(&mut table, 0);
    assert_eq!(root.get_internal_num_keys(), 2);
    assert_eq!(root.get_internal_child(0), Ok(2));
    assert_eq!(root.get_internal_key(0), 70);
    assert_eq!(root.get_internal_child(1), Ok(3));
    assert_eq!(root.get_internal_key(1), 75);
    assert_eq!(root.get_internal_right_child(), 1);
    // a leaf above the right child becomes the right child
    let top = table.pager.get_unused_page_num();
    let leaf = table.pager.get_page(top).unwrap();
    leaf.init_leaf();
    leaf.set_leaf_cell(0, (500, cell.1.clone()));
    leaf.set_leaf_num_cells(1);
    table.pager.num_pages += 1;
    assert_eq!(table.internal_insert(0, top), Ok(()));
    let root = page(&mut table, 0);
    assert_eq!(root.get_internal_num_keys(), 3);
    assert_eq!(root.get_internal_child(2), Ok(1));
    assert_eq!(root.get_internal_key(2), 140);
    assert_eq!(root.get_internal_right_child(), top);
    // the root is full now
    let more = table.pager.get_unused_page_num();
    let leaf = table.pager.get_page(more).unwrap();
    leaf.init_leaf();
    leaf.set_leaf_cell(0, (600, cell.1));
    leaf.set_leaf_num_cells(1);
    table.pager.num_pages += 1;
    assert_eq!(table.internal_insert(0, more), Err(Error::InternalSplit));
    assert_eq!(page(&mut table, 0).get_internal_num_keys(), 4);
}

#[test]
fn leaf_insert_moves_the_cells_from_the_cursor_on() {
    let mut table = fresh();
    for id in [10, 20, 30] {
        table.insert(&row(id)).unwrap();
    }
    let before = page(&mut table, 0);
    // at any cell of a leaf with room, whatever the key
    let mut cursor = Cursor { page_num: 0, cell_num: 1, end_of_table: false };
    assert_eq!(cursor.leaf_insert(&mut table, 99, &row(7)), Ok(()));
    assert_eq!(cursor, Cursor { page_num: 0, cell_num: 1, end_of_table: false });
    let after = page(&mut table, 0);
    assert_eq!(after.get_leaf_num_cells(), 4);
    assert_eq!(after.get_leaf_cell(0), before.get_leaf_cell(0));
    assert_eq!(after.get_leaf_cell(1), (99, row(7).serialize()));
    assert_eq!(after.get_leaf_cell(2), before.get_leaf_cell(1));
    assert_eq!(after.get_leaf_cell(3), before.get_leaf_cell(2));
    assert_eq!(after.get_type(), before.get_type());
    assert_eq!(after.get_is_root(), before.get_is_root());
    assert_eq!(after.get_parent(), before.get_parent());
    assert_eq!(after.get_leaf_next_leaf(), before.get_leaf_next_leaf());
    assert_eq!(table.pager.num_pages, 1);
    // at the cell after the last
    let mut cursor = Cursor { page_num: 0, cell_num: 4, end_of_table: false };
    assert_eq!(cursor.leaf_insert(&mut table, 5, &row(5)), Ok(()));
    let after = page(&mut table, 0);
    assert_eq!(after.get_leaf_num_cells(), 5);
    assert_eq!(after.get_leaf_cell(4), (5, row(5).serialize()));
    assert_eq!(after.get_leaf_cell(3), before.get_leaf_cell(2));
    // outside the cache
    let mut cursor = Cursor { page_num: MAX_PAGES, cell_num: 0, end_of_table: false };
    assert_eq!(
        cursor.leaf_insert(&mut table, 5, &row(5)),
        Err(Error::PageOutOfBounds(MAX_PAGES))
    );
}

#[test]
fn a_split_deals_the_cells_over_the_two_leaves() {
    let mut table = fresh();
    for id in 2..=14 {
        table.insert(&row(id)).unwrap();
    }
    let mut cursor = Cursor::from_pos(&mut table, 0, 0).unwrap();
    assert_eq!(cursor.leaf_split_and_insert(&mut table, 1, &row(1)), Ok(()));
    let root = page(&mut table, 0);
    assert_eq!(root.get_type(), NodeType::Internal);
    assert_eq!(root.get_internal_num_keys(), 1);
    assert_eq!(root.get_internal_key(0), 7);
    let left = page(&mut table, root.get_internal_child(0).unwrap());
    let right = page(&mut table, root.get_internal_right_child());
    assert_eq!(left.get_leaf_num_cells(), 7);
    assert_eq!(right.get_leaf_num_cells(), 7);
    for i in 0..7 {
        assert_eq!(left.get_leaf_cell(i), (i + 1, row(i as u32 + 1).serialize()));
        assert_eq!(right.get_leaf_cell(i), (i + 8, row(i as u32 + 8).serialize()));
    }
}

#[test]
fn a_split_below_the_root_links_the_fresh_leaf() {
    let mut table = fresh();
    for id in 1..=20 {
        table.insert(&row(id)).unwrap();
    }
    // the right leaf (page 1) holds 8..=20 and is full
    let right_before = page(&mut table, 1);
    assert_eq!(right_before.get_leaf_num_cells(), 13);
    let unused = table.pager.get_unused_page_num();
    table.insert(&row(21)).unwrap();
    assert_eq!(table.pager.num_pages, unused + 1);
    let old_leaf = page(&mut table, 1);
    let fresh_leaf = page(&mut table, unused);
    assert_eq!(old_leaf.get_leaf_num_cells(), 7);
    assert_eq!(fresh_leaf.get_leaf_num_cells(), 7);
    assert_eq!(old_leaf.get_leaf_next_leaf(), unused);
    assert_eq!(fresh_leaf.get_leaf_next_leaf(), right_before.get_leaf_next_leaf());
    assert_eq!(fresh_leaf.get_parent(), right_before.get_parent());
    assert_eq!(fresh_leaf.get_type(), NodeType::Leaf);
    assert!(!fresh_leaf.get_is_root());
    assert_eq!(old_leaf.get_parent(), right_before.get_parent());
    let root = page(&mut table, 0);
    assert_eq!(root.get_internal_num_keys(), 2);
    assert_eq!(root.get_internal_key(0), 7);
    assert_eq!(root.get_internal_key(1), 14);
    assert_eq!(root.get_internal_child(1), Ok(1));
    assert_eq!(root.get_internal_right_child(), unused);
}

#[test]
fn the_fifteenth_row_goes_into_the_right_leaf() {
    let mut table = fresh();
    for id in 1..=15 {
        table.insert(&row(id)).unwrap();
    }
    let root = page(&mut table, 0);
    assert_eq!(root.get_internal_num_keys(), 1);
    assert_eq!(root.get_internal_key(0), 7);
    let right = page(&mut table, root.get_internal_right_child());
    assert_eq!(right.get_leaf_num_cells(), 8);
    for i in 0..8 {
        assert_eq!(right.get_leaf_key(i), i + 8);
    }
    assert_eq!(table.pager.num_pages, 3);
}

#[test]
fn new_root_refuses_a_right_child_outside_the_cache() {
    let mut table = fresh();
    for id in 1..=3 {
        table.insert(&row(id)).unwrap();
    }
    let root_before = page(&mut table, 0);
    assert_eq!(table.new_root(MAX_PAGES + 5), Err(Error::PageOutOfBounds(MAX_PAGES + 5)));
    // the left child is made by then, and the root is as it was
    assert_eq!(table.pager.num_pages, 2);
    assert_eq!(page(&mut table, 0).0, root_before.0);
    let left = page(&mut table, 1);
    assert!(!left.get_is_root());
    assert_eq!(left.get_leaf_num_cells(), 3);
}

#[test]
fn internal_insert_refuses_pages_outside_the_cache() {
    let mut table = fresh();
    for id in 1..=14 {
        table.insert(&row(id)).unwrap();
    }
    let root_before = page(&mut table, 0);
    assert_eq!(
        table.internal_insert(0, MAX_PAGES),
        Err(Error::PageOutOfBounds(MAX_PAGES))
    );
    assert_eq!(
        table.internal_insert(MAX_PAGES + 1, 1),
        Err(Error::PageOutOfBounds(MAX_PAGES + 1))
    );
    assert_eq!(page(&mut table, 0).0, root_before.0);
    // a right child outside the cache is found after the number of keys was raised
    table.pager.get_page(0).unwrap().set_internal_right_child(MAX_PAGES);
    assert_eq!(table.internal_insert(0, 1), Err(Error::PageOutOfBounds(MAX_PAGES)));
    assert_eq!(page(&mut table, 0).get_internal_num_keys(), 2);
}

#[test]
fn a_split_refuses_a_leaf_outside_the_cache() {
    let mut table = fresh();
    for id in 1..=3 {
        table.insert(&row(id)).unwrap();
    }
    let root_before = page(&mut table, 0);
    let mut cursor = Cursor { page_num: MAX_PAGES + 2, cell_num: 0, end_of_table: false };
    assert_eq!(
        cursor.leaf_split_and_insert(&mut table, 9, &row(9)),
        Err(Error::PageOutOfBounds(MAX_PAGES + 2))
    );
    // the fresh leaf is made by then, and nothing else is changed
    assert_eq!(table.pager.num_pages, 2);
    let mut blank = vec![0u8; PAGE_SIZE];
    blank[0] = 1;
    assert_eq!(page(&mut table, 1).0, blank);
    assert_eq!(page(&mut table, 0).0, root_before.0);
}

#[test]
fn a_split_below_a_parent_outside_the_cache_leaves_the_tree_unmended() {
    let mut table = fresh();
    for id in 1..=20 {
        table.insert(&row(id)).unwrap();
    }
    // the right leaf (page 1) is full; send it to a parent that is not there
    table.pager.get_page(1).unwrap().set_parent(MAX_PAGES);
    let root_before = page(&mut table, 0);
    let mut cursor = Cursor { page_num: 1, cell_num: 13, end_of_table: false };
    assert_eq!(
        cursor.leaf_split_and_insert(&mut table, 21, &row(21)),
        Err(Error::PageOutOfBounds(MAX_PAGES))
    );
    assert_eq!(page(&mut table, 0).0, root_before.0);
    assert_eq!(page(&mut table, 1).get_leaf_num_cells(), 7);
    assert_eq!(page(&mut table, 1).get_leaf_next_leaf(), 3);
    assert_eq!(page(&mut table, 3).get_leaf_num_cells(), 7);
    assert_eq!(page(&mut table, 3).get_parent(), MAX_PAGES);
    assert_eq!(page(&mut table, 3).get_leaf_key(6), 21);
}

#[test]
fn cursor_reads_work_on_any_page() {
    let mut table = Table::open(vec![0u8; 2 * PAGE_SIZE]).unwrap();
    assert!(!table.check());
    let mut cursor = Cursor::from_pos(&mut table, 1, 0).unwrap();
    assert_eq!(cursor, Cursor { page_num: 1, cell_num: 0, end_of_table: true });
    // a page of zeros reads as an id of 0 and two texts of NUL characters
    let row = cursor.get_row(&mut table).unwrap();
    assert_eq!((row.id, row.username.len(), row.email.len()), (0, 32, 256));
    cursor.advance(&mut table).unwrap();
    assert_eq!(cursor, Cursor { page_num: 1, cell_num: 1, end_of_table: true });
    assert_eq!(table.pager.file, vec![0u8; 2 * PAGE_SIZE]);
}
