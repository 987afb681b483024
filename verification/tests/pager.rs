use resql::bytes::{read_range, write_range, zeroed};
use resql::error::Error;
use resql::page::{Page, PAGE_SIZE};
use resql::pager::{Pager, MAX_PAGES};

fn image(pages: usize) -> Vec<u8> {
    let mut file = Vec::new();
    for n in 0..pages {
        file.extend(std::iter::repeat(n as u8 + 1).take(PAGE_SIZE));
    }
    file
}

#[test]
fn new_counts_the_pages_of_the_file() {
    let pager = Pager::new(image(3)).unwrap();
    assert_eq!(pager.num_pages, 3);
    assert_eq!(pager.get_unused_page_num(), 3);
    assert_eq!(pager.pages.len(), MAX_PAGES);
    assert!(pager.pages.iter().all(|p| p.is_none()));
    assert_eq!(pager.file, image(3));
    assert_eq!(Pager::new(Vec::new()).unwrap().num_pages, 0);
}

#[test]
fn new_rejects_a_partial_page() {
    assert_eq!(Pager::new(vec![0u8; 1]).err(), Some(Error::CorruptFile));
    assert_eq!(Pager::new(vec![0u8; PAGE_SIZE - 1]).err(), Some(Error::CorruptFile));
    assert_eq!(Pager::new(vec![0u8; 3 * PAGE_SIZE + 7]).err(), Some(Error::CorruptFile));
}

#[test]
fn get_page_reads_from_the_file_on_a_miss() {
    let mut pager = Pager::new(image(3)).unwrap();
    assert_eq!(pager.get_page(1).unwrap().0, vec![2u8; PAGE_SIZE]);
    assert!(pager.pages[1].is_some());
    assert!(pager.pages[0].is_none());
    assert_eq!(pager.num_pages, 3);
    pager.get_page(1).unwrap().0[0] = 9;
    assert_eq!(pager.get_page(1).unwrap().0[0], 9);
    assert_eq!(pager.file, image(3));
}

#[test]
fn get_page_beyond_the_file_is_zeroed() {
    let mut pager = Pager::new(image(1)).unwrap();
    assert_eq!(pager.get_page(5).unwrap().0, vec![0u8; PAGE_SIZE]);
    assert_eq!(pager.num_pages, 1);
    assert_eq!(pager.get_unused_page_num(), 1);
}

#[test]
fn get_page_brings_a_page_of_the_file_into_use() {
    let mut pager = Pager::new(image(3)).unwrap();
    pager.num_pages = 1;
    pager.get_page(2).unwrap();
    assert_eq!(pager.num_pages, 3);
}

#[test]
fn get_page_refuses_a_page_outside_the_cache() {
    let mut pager = Pager::new(Vec::new()).unwrap();
    assert_eq!(pager.get_page(MAX_PAGES).err(), Some(Error::PageOutOfBounds(MAX_PAGES)));
    assert_eq!(pager.get_page(MAX_PAGES + 1).err(), Some(Error::PageOutOfBounds(MAX_PAGES + 1)));
    assert!(pager.get_page(MAX_PAGES - 1).is_ok());
}

#[test]
fn copy_page_copies_a_resident_page() {
    let mut pager = Pager::new(image(2)).unwrap();
    assert_eq!(pager.copy_page(0).unwrap().map(|p| p.0), None);
    pager.get_page(0).unwrap();
    let copy = pager.copy_page(0).unwrap().unwrap();
    assert_eq!(copy.0, vec![1u8; PAGE_SIZE]);
    pager.get_page(0).unwrap().0[3] = 77;
    assert_eq!(copy.0[3], 1);
    assert_eq!(pager.copy_page(MAX_PAGES).err(), Some(Error::PageOutOfBounds(MAX_PAGES)));
}

#[test]
fn flush_writes_the_page_and_empties_the_slot() {
    let mut pager = Pager::new(image(2)).unwrap();
    pager.get_page(1).unwrap().0[0] = 42;
    pager.flush(1);
    assert!(pager.pages[1].is_none());
    let mut expected = image(2);
    expected[PAGE_SIZE] = 42;
    assert_eq!(pager.file, expected);
    assert_eq!(pager.get_page(1).unwrap().0[0], 42);
    // a page that is not resident is left alone
    pager.flush(0);
    pager.flush(7);
    assert_eq!(pager.file.len(), 2 * PAGE_SIZE);
}

#[test]
fn flush_grows_the_file_with_zeros() {
    let mut pager = Pager::new(image(1)).unwrap();
    *pager.get_page(3).unwrap() = Page(vec![5u8; PAGE_SIZE]);
    pager.flush(3);
    assert_eq!(pager.file.len(), 4 * PAGE_SIZE);
    assert_eq!(&pager.file[..PAGE_SIZE], &image(1)[..]);
    assert!(pager.file[PAGE_SIZE..3 * PAGE_SIZE].iter().all(|b| *b == 0));
    assert!(pager.file[3 * PAGE_SIZE..].iter().all(|b| *b == 5));
}

#[test]
fn print_shows_a_leaf() {
    let mut pager = Pager::new(Vec::new()).unwrap();
    let page = pager.get_page(0).unwrap();
    page.init_leaf();
    page.set_leaf_key(0, 3);
    page.set_leaf_key(1, 12);
    page.set_leaf_num_cells(2);
    assert_eq!(
        pager.print(0, 0).unwrap(),
        vec!["- leaf (size 2)", "  - key 3", "  - key 12"]
    );
    assert_eq!(
        pager.print(0, 2).unwrap(),
        vec!["    - leaf (size 2)", "      - key 3", "      - key 12"]
    );
}

#[test]
fn print_shows_an_internal_node_over_leaves() {
    let mut pager = Pager::new(Vec::new()).unwrap();
    for (n, keys) in [(1usize, vec![1usize, 2]), (2, vec![5]), (3, vec![])] {
        let page = pager.get_page(n).unwrap();
        page.init_leaf();
        for (i, key) in keys.iter().enumerate() {
            page.set_leaf_key(i, *key);
        }
        page.set_leaf_num_cells(keys.len());
    }
    let root = pager.get_page(0).unwrap();
    root.init_internal();
    root.set_internal_num_keys(2);
    root.set_internal_child(0, 1).unwrap();
    root.set_internal_key(0, 2);
    root.set_internal_child(1, 2).unwrap();
    root.set_internal_key(1, 5);
    root.set_internal_right_child(3);
    assert_eq!(
        pager.print(0, 0).unwrap(),
        vec![
            "- internal (size 2)",
            "  - leaf (size 2)",
            "    - key 1",
            "    - key 2",
            "  - key 2",
            "  - leaf (size 1)",
            "    - key 5",
            "  - key 5",
            "  - leaf (size 0)",
        ]
    );
}

#[test]
fn byte_ranges_are_read_and_written() {
    assert_eq!(zeroed(3), vec![0, 0, 0]);
    assert!(zeroed(0).is_empty());
    let mut buf = vec![1u8, 2, 3, 4, 5];
    assert_eq!(read_range(&buf, 1, 3), vec![2, 3, 4]);
    assert!(read_range(&buf, 5, 0).is_empty());
    write_range(&mut buf, 2, &[9, 8]);
    assert_eq!(buf, vec![1, 2, 9, 8, 5]);
    write_range(&mut buf, 5, &[]);
    assert_eq!(buf, vec![1, 2, 9, 8, 5]);
}
