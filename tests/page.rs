use ledger_db::error::DatabaseError;
use ledger_db::page::{Page, PAGE_SIZE};

#[test]
fn test_insert_into_page() {
    let mut page = Page::new(1024);

    assert_eq!(4, page.available_rows());
    page.insert(&bitcode::serialize(&String::from("Rinha")).unwrap()).ok();
    assert_eq!(3, page.available_rows());
    page.insert(&bitcode::serialize(&String::from("de")).unwrap()).ok();
    assert_eq!(2, page.available_rows());
    page.insert(&bitcode::serialize(&String::from("Backend")).unwrap()).ok();
    assert_eq!(1, page.available_rows());
    page.insert(&bitcode::serialize(&(2024 as usize)).unwrap()).ok();
    assert_eq!(0, page.available_rows());

    let rows = page.rows().unwrap();
    let mut rows = rows.iter();

    assert_eq!("Rinha", bitcode::deserialize::<String>(rows.next().unwrap()).unwrap());
    assert_eq!("de", bitcode::deserialize::<String>(rows.next().unwrap()).unwrap());
    assert_eq!("Backend", bitcode::deserialize::<String>(rows.next().unwrap()).unwrap());
    assert_eq!(2024, bitcode::deserialize::<u64>(rows.next().unwrap()).unwrap());
    assert!(rows.next().is_none());
}

#[test]
fn page_rows_come_back_in_order_byte_for_byte() {
    let mut page = Page::new(64);
    let payloads: Vec<Vec<u8>> = vec![vec![1], vec![0, 0, 7], vec![255; 56], vec![9, 8, 7, 6]];
    for p in &payloads {
        assert_eq!(Ok(()), page.insert(p));
    }
    assert_eq!(4 * 64, page.len());
    assert_eq!(payloads, page.rows().unwrap());
}

#[test]
fn slot_layout_is_prefix_payload_padding() {
    let mut page = Page::new(16);
    page.insert(&[0xAB, 0xCD, 0xEF]).unwrap();
    let expected: Vec<u8> = vec![0, 0, 0, 0, 0, 0, 0, 3, 0xAB, 0xCD, 0xEF, 0, 0, 0, 0, 0];
    assert_eq!(&expected[..], page.as_bytes());
}

#[test]
fn row_too_large_leaves_page_unchanged() {
    let mut page = Page::new(64);
    page.insert(&[1, 2, 3]).unwrap();
    assert_eq!(Err(DatabaseError::RowTooLarge), page.insert(&[0u8; 57]));
    assert_eq!(64, page.len());
    assert_eq!(63, page.available_rows());
    assert_eq!(Ok(()), page.insert(&[0u8; 56]));
    assert_eq!(vec![vec![1, 2, 3], vec![0u8; 56]], page.rows().unwrap());
}

#[test]
fn full_page_refuses_rows() {
    let mut page = Page::new(PAGE_SIZE);
    assert_eq!(1, page.available_rows());
    assert_eq!(Ok(()), page.insert(&[5]));
    assert_eq!(0, page.available_rows());
    assert_eq!(Err(DatabaseError::PageFull), page.insert(&[6]));
    assert_eq!(PAGE_SIZE, page.len());
}

#[test]
fn from_bytes_needs_exactly_one_page() {
    assert!(matches!(Page::from_bytes(vec![0; 100], 64), Err(DatabaseError::InvalidPageSize)));
    assert!(matches!(Page::from_bytes(vec![0; PAGE_SIZE + 1], 64), Err(DatabaseError::InvalidPageSize)));
    let page = Page::from_bytes(vec![0; PAGE_SIZE], 64).unwrap();
    assert!(page.rows().unwrap().is_empty());
}

#[test]
fn zero_prefix_ends_the_page() {
    let mut bytes = vec![0u8; PAGE_SIZE];
    bytes[7] = 2;
    bytes[8] = 10;
    bytes[9] = 20;
    // second slot empty, third slot written: never reached
    bytes[128 + 7] = 1;
    bytes[128 + 8] = 99;
    let page = Page::from_bytes(bytes, 64).unwrap();
    assert_eq!(vec![vec![10, 20]], page.rows().unwrap());
}

#[test]
fn oversized_prefix_is_corruption() {
    let mut bytes = vec![0u8; PAGE_SIZE];
    bytes[7] = 1;
    bytes[8] = 42;
    bytes[64 + 7] = 57;
    let page = Page::from_bytes(bytes, 64).unwrap();
    assert!(matches!(page.rows(), Err(DatabaseError::CorruptSlot)));
}

#[test]
fn empty_row_is_refused() {
    let mut page = Page::new(64);
    assert_eq!(Err(DatabaseError::EmptyRow), page.insert(&[]));
    assert_eq!(0, page.len());
    page.insert(&[4]).unwrap();
    assert_eq!(vec![vec![4]], page.rows().unwrap());
}
