use resql::error::Error;
use resql::page::{
    NodeType, Page, COMMON_HEADER_SIZE, INTERNAL_CELL_CAPACITY, INTERNAL_CELL_SIZE,
    INTERNAL_HEADER_SIZE, INTERNAL_MAX_CELLS, LEAF_CELL_SIZE, LEAF_HEADER_SIZE,
    LEAF_LEFT_SPLIT_COUNT, LEAF_MAX_CELLS, LEAF_RIGHT_SPLIT_COUNT, PAGE_SIZE,
};
use resql::row::ROW_SIZE;

fn blank() -> Page {
    Page(vec![0u8; PAGE_SIZE])
}

fn leaf_with_keys(keys: &[usize]) -> Page {
    let mut page = blank();
    page.init_leaf();
    for (i, key) in keys.iter().enumerate() {
        page.set_leaf_key(i, *key);
    }
    page.set_leaf_num_cells(keys.len());
    page
}

fn internal_with_keys(keys: &[usize]) -> Page {
    let mut page = blank();
    page.init_internal();
    page.set_internal_num_keys(keys.len());
    for (i, key) in keys.iter().enumerate() {
        page.set_internal_key(i, *key);
        page.set_internal_child(i, 10 + i).unwrap();
    }
    page.set_internal_right_child(10 + keys.len());
    page
}

#[test]
fn layout_constants() {
    assert_eq!(PAGE_SIZE, 4096);
    assert_eq!(COMMON_HEADER_SIZE, 10);
    assert_eq!(LEAF_HEADER_SIZE, 26);
    assert_eq!(LEAF_CELL_SIZE, 8 + ROW_SIZE);
    assert_eq!(LEAF_CELL_SIZE, 300);
    assert_eq!(LEAF_MAX_CELLS, (PAGE_SIZE - LEAF_HEADER_SIZE) / LEAF_CELL_SIZE);
    assert_eq!(LEAF_MAX_CELLS, 13);
    assert_eq!(LEAF_RIGHT_SPLIT_COUNT, 7);
    assert_eq!(LEAF_LEFT_SPLIT_COUNT, 7);
    assert_eq!(LEAF_LEFT_SPLIT_COUNT + LEAF_RIGHT_SPLIT_COUNT, LEAF_MAX_CELLS + 1);
    assert_eq!(INTERNAL_HEADER_SIZE, 26);
    assert_eq!(INTERNAL_CELL_SIZE, 16);
    assert_eq!(INTERNAL_MAX_CELLS, 3);
    assert_eq!(INTERNAL_CELL_CAPACITY, 254);
}

#[test]
fn type_tag_is_the_first_byte() {
    let mut page = blank();
    assert_eq!(page.get_type(), NodeType::Internal);
    page.set_type(NodeType::Leaf);
    assert_eq!(page.0[0], 1);
    assert_eq!(page.get_type(), NodeType::Leaf);
    page.0[0] = 200;
    assert_eq!(page.get_type(), NodeType::Leaf);
    page.set_type(NodeType::Internal);
    assert_eq!(page.0[0], 0);
    assert_eq!(page.0[1..], blank().0[1..]);
}

#[test]
fn root_flag_is_the_second_byte() {
    let mut page = blank();
    assert!(!page.get_is_root());
    page.set_is_root(true);
    assert_eq!(page.0[1], 1);
    assert!(page.get_is_root());
    page.0[1] = 7;
    assert!(page.get_is_root());
    page.set_is_root(false);
    assert_eq!(page.0, blank().0);
}

#[test]
fn parent_is_stored_little_endian_after_the_flags() {
    let mut page = blank();
    page.set_parent(0x0102_0304_0506_0708);
    assert_eq!(&page.0[2..10], &[8, 7, 6, 5, 4, 3, 2, 1]);
    assert_eq!(page.get_parent(), 0x0102_0304_0506_0708);
    assert_eq!(page.0[0..2], [0, 0]);
    assert!(page.0[10..].iter().all(|b| *b == 0));
    let mut page = blank();
    page.0[2] = 5;
    page.0[3] = 1;
    assert_eq!(page.get_parent(), 261);
}

#[test]
fn leaf_header_fields_have_their_offsets() {
    let mut page = blank();
    page.set_leaf_num_cells(0x1122);
    page.set_leaf_next_leaf(0x3344);
    assert_eq!(&page.0[10..18], &[0x22, 0x11, 0, 0, 0, 0, 0, 0]);
    assert_eq!(&page.0[18..26], &[0x44, 0x33, 0, 0, 0, 0, 0, 0]);
    assert_eq!(page.get_leaf_num_cells(), 0x1122);
    assert_eq!(page.get_leaf_next_leaf(), 0x3344);
    assert!(page.0[26..].iter().all(|b| *b == 0));
}

#[test]
fn leaf_cells_are_packed_after_the_header() {
    let mut page = blank();
    let value: Vec<u8> = (0..ROW_SIZE).map(|i| (i % 251) as u8 + 1).collect();
    page.set_leaf_cell(2, (77, value.clone()));
    let start = 26 + 2 * 300;
    assert_eq!(&page.0[start..start + 8], &[77, 0, 0, 0, 0, 0, 0, 0]);
    assert_eq!(&page.0[start + 8..start + 300], &value[..]);
    assert!(page.0[..start].iter().all(|b| *b == 0));
    assert!(page.0[start + 300..].iter().all(|b| *b == 0));
    assert_eq!(page.get_leaf_key(2), 77);
    assert_eq!(page.get_leaf_value(2), value);
    assert_eq!(page.get_leaf_cell(2), (77, value.clone()));
    assert_eq!(page.get_leaf_key(1), 0);
    page.set_leaf_key(12, usize::MAX);
    page.set_leaf_value(12, value.clone());
    assert_eq!(page.get_leaf_cell(12), (usize::MAX, value));
    assert_eq!(page.0.len(), PAGE_SIZE);
}

#[test]
fn init_leaf_zeroes_the_page_and_stamps_the_type() {
    let mut page = Page(vec![0xaa; 17]);
    page.init_leaf();
    let mut expected = vec![0u8; PAGE_SIZE];
    expected[0] = 1;
    assert_eq!(page.0, expected);
    assert_eq!(page.get_type(), NodeType::Leaf);
    assert!(!page.get_is_root());
    assert_eq!(page.get_leaf_num_cells(), 0);
    assert_eq!(page.get_leaf_next_leaf(), 0);
    assert_eq!(page.get_parent(), 0);
}

#[test]
fn init_internal_zeroes_the_page() {
    let mut page = Page(vec![0xaa; PAGE_SIZE]);
    page.init_internal();
    assert_eq!(page.0, vec![0u8; PAGE_SIZE]);
    assert_eq!(page.get_type(), NodeType::Internal);
    assert!(!page.get_is_root());
    assert_eq!(page.get_internal_num_keys(), 0);
    assert_eq!(page.get_internal_right_child(), 0);
}

#[test]
fn internal_fields_have_their_offsets() {
    let mut page = blank();
    page.set_internal_num_keys(2);
    page.set_internal_right_child(9);
    page.set_internal_child(0, 5).unwrap();
    page.set_internal_key(0, 100);
    page.set_internal_child(1, 6).unwrap();
    page.set_internal_key(1, 200);
    assert_eq!(page.0[10], 2);
    assert_eq!(page.0[18], 9);
    assert_eq!(page.0[26], 5);
    assert_eq!(page.0[34], 100);
    assert_eq!(page.0[42], 6);
    assert_eq!(page.0[50], 200);
    assert_eq!(page.get_internal_num_keys(), 2);
    assert_eq!(page.get_internal_right_child(), 9);
    assert_eq!(page.get_internal_key(0), 100);
    assert_eq!(page.get_internal_key(1), 200);
    assert_eq!(page.get_internal_child(0), Ok(5));
    assert_eq!(page.get_internal_child(1), Ok(6));
    assert_eq!(page.get_internal_child(2), Ok(9));
    assert_eq!(
        page.get_internal_child(3),
        Err(Error::ChildOutOfBounds { child_num: 3, num_keys: 2 })
    );
}

#[test]
fn set_internal_child_of_the_last_slot_sets_the_right_child() {
    let mut page = internal_with_keys(&[10, 20]);
    page.set_internal_child(2, 42).unwrap();
    assert_eq!(page.get_internal_right_child(), 42);
    let before = page.0.clone();
    assert_eq!(
        page.set_internal_child(3, 1),
        Err(Error::ChildOutOfBounds { child_num: 3, num_keys: 2 })
    );
    assert_eq!(page.0, before);
}

#[test]
fn max_key_is_the_last_key_in_use() {
    assert_eq!(leaf_with_keys(&[3, 5, 9]).get_max_key(), 9);
    assert_eq!(leaf_with_keys(&[4]).get_max_key(), 4);
    assert_eq!(internal_with_keys(&[7, 14, 21]).get_max_key(), 21);
}

#[test]
fn leaf_find_gives_position_or_insertion_slot() {
    let page = leaf_with_keys(&[10, 20, 30, 40, 50]);
    assert_eq!(page.leaf_find(10), 0);
    assert_eq!(page.leaf_find(30), 2);
    assert_eq!(page.leaf_find(50), 4);
    assert_eq!(page.leaf_find(5), 0);
    assert_eq!(page.leaf_find(15), 1);
    assert_eq!(page.leaf_find(45), 4);
    assert_eq!(page.leaf_find(55), 5);
    assert_eq!(leaf_with_keys(&[]).leaf_find(1), 0);
    let full: Vec<usize> = (1..=13).map(|i| 2 * i).collect();
    let page = leaf_with_keys(&full);
    for key in 0..30 {
        let expected = full.iter().filter(|k| **k < key).count();
        assert_eq!(page.leaf_find(key), expected, "key {key}");
    }
}

#[test]
fn internal_find_gives_the_child_slot() {
    let page = internal_with_keys(&[10, 20, 30]);
    assert_eq!(page.internal_find(0), 0);
    assert_eq!(page.internal_find(10), 0);
    assert_eq!(page.internal_find(11), 1);
    assert_eq!(page.internal_find(20), 1);
    assert_eq!(page.internal_find(30), 2);
    assert_eq!(page.internal_find(31), 3);
    assert_eq!(internal_with_keys(&[]).internal_find(5), 0);
}

#[test]
fn internal_update_key_replaces_the_separator() {
    let mut page = internal_with_keys(&[10, 20, 30]);
    page.internal_update_key(20, 15);
    assert_eq!(
        (page.get_internal_key(0), page.get_internal_key(1), page.get_internal_key(2)),
        (10, 15, 30)
    );
    assert_eq!(page.get_internal_num_keys(), 3);
    assert_eq!(page.get_internal_child(1), Ok(11));
}

#[test]
fn shifting_cells_up_makes_room() {
    let mut page = leaf_with_keys(&[10, 20, 30]);
    for i in 0..3 {
        page.set_leaf_value(i, vec![i as u8 + 1; ROW_SIZE]);
    }
    page.leaf_shift_up(1, 3);
    assert_eq!(page.get_leaf_num_cells(), 3);
    assert_eq!(page.get_leaf_key(0), 10);
    assert_eq!(page.get_leaf_key(1), 20);
    assert_eq!(page.get_leaf_key(2), 20);
    assert_eq!(page.get_leaf_key(3), 30);
    assert_eq!(page.get_leaf_value(2), vec![2u8; ROW_SIZE]);
    assert_eq!(page.get_leaf_value(3), vec![3u8; ROW_SIZE]);
    let mut page = internal_with_keys(&[10, 20, 30]);
    page.set_internal_num_keys(4);
    page.internal_shift_up(0, 3);
    assert_eq!(page.get_internal_key(1), 10);
    assert_eq!(page.get_internal_key(2), 20);
    assert_eq!(page.get_internal_key(3), 30);
    assert_eq!(page.get_internal_child(1), Ok(10));
    assert_eq!(page.get_internal_child(3), Ok(12));
}

#[test]
fn clone_is_a_deep_copy() {
    let mut page = leaf_with_keys(&[1, 2]);
    let copy = page.clone();
    page.set_leaf_key(0, 99);
    assert_eq!(copy.get_leaf_key(0), 1);
    assert_eq!(page.get_leaf_key(0), 99);
}
