use ledger_db::database::{Database, PageWrite};
use ledger_db::error::DatabaseError;
use ledger_db::page::PAGE_SIZE;

fn step(db: &mut Database, file: &mut Vec<u8>, row: &[u8]) -> PageWrite {
    let (next, write) = db.insert(row).unwrap();
    write.apply(file);
    *db = next;
    write
}

fn insert_all(db: &mut Database, file: &mut Vec<u8>, rows: &[Vec<u8>]) {
    for row in rows {
        step(db, file, row);
    }
}

#[test]
fn test_insert_into_database() {
    let mut file: Vec<u8> = Vec::new();
    let mut database = Database::open(1024, 0).unwrap();

    let first = bitcode::serialize(&(50i64, String::from("Primeira"))).unwrap();
    let second = bitcode::serialize(&(-20i64, String::from("Segunda"))).unwrap();
    step(&mut database, &mut file, &first);
    step(&mut database, &mut file, &second);

    let rows = database.rows(&file).unwrap();
    let mut rows = rows.iter();

    assert_eq!(
        (50, String::from("Primeira")),
        bitcode::deserialize::<(i64, String)>(rows.next().unwrap()).unwrap()
    );
    assert_eq!(
        (-20, String::from("Segunda")),
        bitcode::deserialize::<(i64, String)>(rows.next().unwrap()).unwrap()
    );
    assert!(rows.next().is_none());
}

#[test]
fn writes_overwrite_the_page_then_append() {
    let mut file: Vec<u8> = Vec::new();
    let mut db = Database::open(2048, 0).unwrap();
    let w1 = step(&mut db, &mut file, &[1]);
    assert_eq!(0, w1.offset);
    assert_eq!(PAGE_SIZE, w1.image.len());
    let w2 = step(&mut db, &mut file, &[2]);
    assert_eq!(0, w2.offset);
    assert_eq!(PAGE_SIZE, file.len());
    let w3 = step(&mut db, &mut file, &[3]);
    assert_eq!(PAGE_SIZE as u64, w3.offset);
    assert_eq!(2 * PAGE_SIZE, file.len());
}

#[test]
fn reopen_replays_rows_across_pages() {
    let mut file: Vec<u8> = Vec::new();
    let mut db = Database::open(128, 0).unwrap();
    let rows: Vec<Vec<u8>> = (0..100u32).map(|i| i.to_be_bytes().to_vec()).collect();
    insert_all(&mut db, &mut file, &rows);
    assert_eq!(4 * PAGE_SIZE, file.len());

    let reopened = Database::open(128, file.len() as u64).unwrap();
    assert_eq!(rows, reopened.rows(&file).unwrap());
}

#[test]
fn reopened_store_appends_after_existing_pages() {
    let mut file: Vec<u8> = Vec::new();
    let mut db = Database::open(128, 0).unwrap();
    insert_all(&mut db, &mut file, &[vec![1], vec![2]]);
    let mut db = Database::open(128, file.len() as u64).unwrap();
    let w = step(&mut db, &mut file, &[3]);
    assert_eq!(PAGE_SIZE as u64, w.offset);
    assert_eq!(vec![vec![1], vec![2], vec![3]], db.rows(&file).unwrap());
}

#[test]
fn truncation_at_page_boundary_keeps_a_prefix() {
    let mut file: Vec<u8> = Vec::new();
    let mut db = Database::open(256, 0).unwrap();
    let rows: Vec<Vec<u8>> = (0..40u8).map(|i| vec![i, i, i]).collect();
    insert_all(&mut db, &mut file, &rows);
    assert_eq!(3 * PAGE_SIZE, file.len());
    for pages in 0..=3usize {
        let cut = &file[..pages * PAGE_SIZE];
        let replayed = db.rows(cut).unwrap();
        let expected = std::cmp::min(pages * 16, rows.len());
        assert_eq!(&rows[..expected], &replayed[..]);
    }
}

#[test]
fn partial_page_file_is_rejected() {
    let db = Database::open(128, 0).unwrap();
    assert!(matches!(db.rows(&vec![0u8; PAGE_SIZE + 10]), Err(DatabaseError::InvalidPageSize)));
    assert!(matches!(Database::open(128, 100), Err(DatabaseError::InvalidPageSize)));
}

#[test]
fn invalid_slot_sizes_are_rejected() {
    assert!(matches!(Database::open(8, 0), Err(DatabaseError::InvalidSlotSize)));
    assert!(matches!(Database::open(PAGE_SIZE + 1, 0), Err(DatabaseError::InvalidSlotSize)));
}

#[test]
fn empty_and_oversized_rows_are_refused() {
    let db = Database::open(64, 0).unwrap();
    assert!(matches!(db.insert(&[]), Err(DatabaseError::EmptyRow)));
    assert!(matches!(db.insert(&[1u8; 57]), Err(DatabaseError::RowTooLarge)));
    let (_, w) = db.insert(&[1u8; 56]).unwrap();
    assert_eq!(0, w.offset);
}

#[test]
fn a_write_that_is_not_kept_changes_nothing() {
    let mut file: Vec<u8> = Vec::new();
    let mut db = Database::open(2048, 0).unwrap();
    step(&mut db, &mut file, &[1]);
    // the next insert is decided but its write never happens
    let (_, lost) = db.insert(&[2]).unwrap();
    assert_eq!(0, lost.offset);
    // the store still places the next row in the same slot
    let (_, again) = db.insert(&[3]).unwrap();
    assert_eq!(0, again.offset);
    again.apply(&mut file);
    assert_eq!(vec![vec![1], vec![3]], db.rows(&file).unwrap());
}

#[test]
fn corrupt_slot_fails_the_replay() {
    let mut file: Vec<u8> = Vec::new();
    let mut db = Database::open(64, 0).unwrap();
    insert_all(&mut db, &mut file, &[vec![1], vec![2]]);
    file[64 + 7] = 200;
    assert!(matches!(db.rows(&file), Err(DatabaseError::CorruptSlot)));
}
