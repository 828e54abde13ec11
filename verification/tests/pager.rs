use pagestore::errors::Error;
use pagestore::table::{header_region, Page, Pager, HEADER_SPACE, TABLE_MAX_PAGE};

fn empty_file() -> Vec<u8> {
    vec![0u8; HEADER_SPACE]
}

#[test]
fn flushed_pages_come_back_after_reopening() {
    let mut pager = Pager::new(empty_file(), 0).unwrap();
    let (index, page) = pager.new_leaf_page().unwrap();
    assert_eq!(index, 0);
    page.bytes.fill(1u8);
    let (index, page) = pager.new_leaf_page().unwrap();
    assert_eq!(index, 1);
    page.bytes.fill(2u8);
    page.bytes[0] = 0;
    let (index, page) = pager.new_leaf_page().unwrap();
    assert_eq!(index, 2);
    page.bytes.fill(3u8);
    page.bytes[0] = 1;
    assert_eq!(pager.pages, 3);
    assert_eq!(pager.file.len(), HEADER_SPACE + 3 * 4096);
    // Nothing is in the file before the flush.
    assert_eq!(&pager.file[HEADER_SPACE..], vec![0u8; 3 * 4096].as_slice());
    pager.flush_page(0).unwrap();
    pager.flush_page(1).unwrap();
    pager.flush_page(2).unwrap();
    let file = pager.file.clone();
    drop(pager);

    let mut pager = Pager::new(file, 3).unwrap();
    assert_eq!(pager.page(0).unwrap().bytes(), vec![1u8; 4096].as_slice());
    assert!(matches!(pager.page(0).unwrap(), Page::Intermediate(_)));
    let mut second = vec![2u8; 4096];
    second[0] = 0;
    assert_eq!(pager.page(1).unwrap().bytes(), second.as_slice());
    assert!(matches!(pager.page(1).unwrap(), Page::Leaf(_)));
    let mut third = vec![3u8; 4096];
    third[0] = 1;
    assert_eq!(pager.page(2).unwrap().bytes(), third.as_slice());
    assert_eq!(pager.pages, 3);
}

#[test]
fn a_page_of_an_unknown_kind_is_not_handed_out() {
    let mut pager = Pager::new(empty_file(), 0).unwrap();
    let (_, page) = pager.new_leaf_page().unwrap();
    page.bytes.fill(2u8);
    pager.flush_page(0).unwrap();
    let file = pager.file.clone();
    assert_eq!(&file[HEADER_SPACE..], vec![2u8; 4096].as_slice());
    let mut reopened = Pager::new(file.clone(), 1).unwrap();
    assert_eq!(reopened.page(0).err(), Some(Error::IOError));
    assert_eq!(reopened.file, file);
    assert!(reopened.cache[0].is_none());
}

#[test]
fn page_right_behind_the_last_one_is_a_new_leaf() {
    let mut pager = Pager::new(empty_file(), 0).unwrap();
    {
        let page = pager.page(0).unwrap();
        assert!(matches!(page, Page::Leaf(_)));
        assert_eq!(page.bytes(), vec![0u8; 4096].as_slice());
        page.bytes_mut()[100] = 9;
    }
    assert_eq!(pager.pages, 1);
    assert_eq!(pager.file.len(), HEADER_SPACE + 4096);
    // The cached page is handed out again, with what was written to it.
    assert_eq!(pager.page(0).unwrap().bytes()[100], 9);
    assert_eq!(pager.pages, 1);
    // Two behind the last page there is nothing.
    assert_eq!(pager.page(2).err(), Some(Error::IOError));
    assert_eq!(pager.pages, 1);
    assert!(pager.page(1).is_ok());
    assert_eq!(pager.pages, 2);
}

#[test]
fn pages_are_read_from_their_place_in_the_file() {
    let mut file = vec![0u8; HEADER_SPACE + 3 * 4096];
    file[HEADER_SPACE + 4096] = 1;
    file[HEADER_SPACE + 4096 + 77] = 5;
    file[HEADER_SPACE + 2 * 4096 + 4095] = 6;
    let mut pager = Pager::new(file, 3).unwrap();
    assert!(pager.cache.iter().all(|slot| slot.is_none()));
    {
        let page = pager.page(1).unwrap();
        assert!(matches!(page, Page::Intermediate(_)));
        assert_eq!(page.bytes()[0], 1);
        assert_eq!(page.bytes()[77], 5);
    }
    assert!(pager.cache[1].is_some());
    assert!(pager.cache[0].is_none());
    assert_eq!(pager.page(2).unwrap().bytes()[4095], 6);
    assert_eq!(pager.page(0).unwrap().bytes(), vec![0u8; 4096].as_slice());
}

#[test]
fn a_file_that_ends_early_gives_an_io_error() {
    let file = vec![0u8; HEADER_SPACE + 4096 + 100];
    let mut pager = Pager::new(file, 2).unwrap();
    assert!(pager.page(0).is_ok());
    assert_eq!(pager.page(1).err(), Some(Error::IOError));
    assert!(pager.cache[1].is_none());
}

#[test]
fn flushing_what_is_not_cached_does_nothing() {
    let file: Vec<u8> = (0..HEADER_SPACE + 2 * 4096).map(|i| (i % 251) as u8).collect();
    let mut pager = Pager::new(file.clone(), 2).unwrap();
    pager.flush_page(0).unwrap();
    pager.flush_page(1).unwrap();
    pager.flush_page(50).unwrap();
    pager.flush_page(TABLE_MAX_PAGE).unwrap();
    pager.flush_page(usize::MAX).unwrap();
    assert_eq!(pager.file, file);
}

#[test]
fn flush_writes_one_page_and_leaves_the_rest() {
    let mut file: Vec<u8> = (0..HEADER_SPACE + 3 * 4096).map(|i| (i % 251) as u8).collect();
    file[HEADER_SPACE] = 0;
    file[HEADER_SPACE + 4096] = 0;
    file[HEADER_SPACE + 2 * 4096] = 0;
    let mut pager = Pager::new(file.clone(), 3).unwrap();
    pager.page(1).unwrap().bytes_mut().fill(0);
    assert_eq!(pager.file, file);
    pager.flush_page(1).unwrap();
    assert_eq!(&pager.file[..HEADER_SPACE + 4096], &file[..HEADER_SPACE + 4096]);
    assert_eq!(
        &pager.file[HEADER_SPACE + 4096..HEADER_SPACE + 2 * 4096],
        vec![0u8; 4096].as_slice()
    );
    assert_eq!(&pager.file[HEADER_SPACE + 2 * 4096..], &file[HEADER_SPACE + 2 * 4096..]);
}

#[test]
fn the_cache_has_room_for_a_hundred_pages_and_no_more() {
    assert_eq!(TABLE_MAX_PAGE, 100);
    assert_eq!(Pager::new(empty_file(), 101).err(), Some(Error::IOError));
    let mut pager = Pager::new(empty_file(), 0).unwrap();
    assert_eq!(pager.cache.len(), 100);
    for expected in 0..100u32 {
        let (index, _) = pager.new_leaf_page().unwrap();
        assert_eq!(index, expected);
    }
    assert_eq!(pager.pages, 100);
    let before = pager.file.clone();
    assert_eq!(pager.new_leaf_page().err(), Some(Error::IOError));
    assert_eq!(pager.page(100).err(), Some(Error::IOError));
    assert_eq!(pager.pages, 100);
    assert_eq!(pager.file, before);
    assert_eq!(pager.file.len(), HEADER_SPACE + 100 * 4096);
}

#[test]
fn header_region_pads_the_encoding_with_zeros() {
    let region = header_region(&[1, 2, 3]).unwrap();
    assert_eq!(region.len(), HEADER_SPACE);
    assert_eq!(&region[..3], &[1, 2, 3]);
    assert!(region[3..].iter().all(|b| *b == 0));
    assert_eq!(header_region(&[]).unwrap(), vec![0u8; HEADER_SPACE]);
    assert_eq!(header_region(&vec![9u8; 4096]).unwrap(), vec![9u8; 4096]);
    assert_eq!(
        header_region(&vec![9u8; 4097]).err(),
        Some(Error::SerializationError)
    );
}
