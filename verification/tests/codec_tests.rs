use lstore::codec::{page_from_bytes, page_to_bytes};
use lstore::page::{Page, PAGE_SIZE};

#[test]
fn encode_is_big_endian() {
    let mut page = Page::default();
    page.write(Some(1)).unwrap();
    let bytes = page_to_bytes(&page);
    assert_eq!(bytes, vec![0, 0, 0, 0, 0, 0, 0, 1]);

    let mut page2 = Page::default();
    page2.write(Some(-1)).unwrap();
    assert_eq!(page_to_bytes(&page2), vec![0xff; 8]);

    let mut page3 = Page::default();
    page3.write(Some(0x0102030405060708)).unwrap();
    assert_eq!(page_to_bytes(&page3), vec![1, 2, 3, 4, 5, 6, 7, 8]);
}

#[test]
fn null_slots_are_omitted() {
    let mut page = Page::default();
    page.write(Some(7)).unwrap();
    page.write(None).unwrap();
    page.write(Some(9)).unwrap();
    let bytes = page_to_bytes(&page);
    assert_eq!(bytes.len(), 16);
    // Decoding packs the non-null values together: the stream is not
    // position-stable once a null was written.
    let reloaded = page_from_bytes(&bytes);
    assert_eq!(reloaded.len(), 2);
    assert_eq!(reloaded.read(0).unwrap(), Some(7));
    assert_eq!(reloaded.read(1).unwrap(), Some(9));
}

#[test]
fn round_trip_without_nulls_is_exact() {
    let mut page = Page::default();
    let vals = [0i64, 1, -1, i64::MAX, i64::MIN, 123456789, -987654321];
    for v in vals {
        page.write(Some(v)).unwrap();
    }
    let reloaded = page_from_bytes(&page_to_bytes(&page));
    assert_eq!(reloaded.len(), vals.len());
    for (i, v) in vals.iter().enumerate() {
        assert_eq!(reloaded.read(i).unwrap(), Some(*v));
    }
}

#[test]
fn round_trip_full_page() {
    let mut page = Page::default();
    for i in 0..PAGE_SIZE {
        page.write(Some(i as i64 * 3 - 700)).unwrap();
    }
    let bytes = page_to_bytes(&page);
    assert_eq!(bytes.len(), 8 * PAGE_SIZE);
    let reloaded = page_from_bytes(&bytes);
    assert_eq!(reloaded.len(), PAGE_SIZE);
    for i in 0..PAGE_SIZE {
        assert_eq!(reloaded.read(i).unwrap(), Some(i as i64 * 3 - 700));
    }
}

#[test]
fn empty_page_encodes_to_nothing() {
    let page = Page::default();
    assert_eq!(page_to_bytes(&page), Vec::<u8>::new());
    let reloaded = page_from_bytes(&Vec::new());
    assert_eq!(reloaded.len(), 0);
}
