use ledger_db::error::DatabaseError;
use ledger_db::ledger::{Account, Description, LedgerError, Transaction, TransactionKind};
use ledger_db::page::PAGE_SIZE;

fn tx(value: i64, kind: TransactionKind, text: &str) -> Transaction {
    let description = Description::new(text.to_string()).unwrap();
    Transaction::new(value, kind, description, 1_700_000_000_000_000_000).unwrap()
}

fn apply(account: &mut Account, file: &mut Vec<u8>, t: Transaction) -> Result<(), LedgerError> {
    let pending = account.transact(t)?;
    pending.write().apply(file);
    account.commit(pending);
    Ok(())
}

#[test]
fn limit_scenario() {
    let mut file: Vec<u8> = Vec::new();
    let mut account = Account::with_database(&file, 1000).unwrap();
    assert_eq!(0, account.balance());
    assert_eq!(Ok(()), apply(&mut account, &mut file, tx(500, TransactionKind::Debit, "a")));
    assert_eq!(-500, account.balance());
    assert_eq!(
        Err(LedgerError::LimitExceeded),
        apply(&mut account, &mut file, tx(600, TransactionKind::Debit, "b"))
    );
    assert_eq!(-500, account.balance());
    assert_eq!(Ok(()), apply(&mut account, &mut file, tx(2000, TransactionKind::Credit, "c")));
    assert_eq!(1500, account.balance());
    assert_eq!(1000, account.limit());
}

#[test]
fn rejected_debit_changes_nothing() {
    let mut file: Vec<u8> = Vec::new();
    let mut account = Account::with_database(&file, 100).unwrap();
    apply(&mut account, &mut file, tx(50, TransactionKind::Credit, "in")).unwrap();
    let before = file.clone();
    assert!(matches!(
        account.transact(tx(151, TransactionKind::Debit, "out")),
        Err(LedgerError::LimitExceeded)
    ));
    assert_eq!(50, account.balance());
    assert_eq!(1, account.history_len());
    assert_eq!(before, file);
    // exactly at the limit is accepted
    apply(&mut account, &mut file, tx(150, TransactionKind::Debit, "out")).unwrap();
    assert_eq!(-100, account.balance());
    // a credit is accepted whatever the limit
    let mut strict = Account::with_database(&[], 0).unwrap();
    let mut other: Vec<u8> = Vec::new();
    assert_eq!(Ok(()), apply(&mut strict, &mut other, tx(151, TransactionKind::Credit, "x")));
    assert_eq!(151, strict.balance());
}

#[test]
fn uncommitted_transaction_leaves_account_unchanged() {
    let file: Vec<u8> = Vec::new();
    let account = Account::with_database(&file, 10).unwrap();
    let pending = account.transact(tx(5, TransactionKind::Credit, "lost")).unwrap();
    assert_eq!(5, pending.balance());
    drop(pending);
    assert_eq!(0, account.balance());
    assert_eq!(0, account.history_len());
}

#[test]
fn reopen_rebuilds_balance_and_recent_history() {
    let mut file: Vec<u8> = Vec::new();
    let mut account = Account::with_database(&file, 0).unwrap();
    for i in 1..=12i64 {
        let kind = if i % 3 == 0 { TransactionKind::Debit } else { TransactionKind::Credit };
        apply(&mut account, &mut file, tx(i, kind, &format!("t{}", i))).unwrap();
    }
    // credits 1,2,4,5,7,8,10,11 = 48; debits 3,6,9,12 = 30
    assert_eq!(18, account.balance());

    let reopened = Account::with_database(&file, 0).unwrap();
    assert_eq!(18, reopened.balance());
    assert_eq!(10, reopened.history_len());
    for k in 0..10usize {
        let t = reopened.history_at(k);
        let n = 12 - k as i64;
        assert_eq!(n, t.value());
        assert_eq!(format!("t{}", n), t.description());
        assert_eq!(1_700_000_000_000_000_000, t.created_at());
        assert_eq!(account.history_at(k).value(), t.value());
    }
    assert_eq!(TransactionKind::Debit, reopened.history_at(0).kind());
    assert_eq!(TransactionKind::Credit, reopened.history_at(1).kind());
}

#[test]
fn reopen_with_few_transactions() {
    let mut file: Vec<u8> = Vec::new();
    let mut account = Account::with_database(&file, 0).unwrap();
    apply(&mut account, &mut file, tx(7, TransactionKind::Credit, "one")).unwrap();
    apply(&mut account, &mut file, tx(2, TransactionKind::Debit, "two")).unwrap();
    assert_eq!(PAGE_SIZE, file.len());
    let reopened = Account::with_database(&file, 0).unwrap();
    assert_eq!(5, reopened.balance());
    assert_eq!(2, reopened.history_len());
    assert_eq!("two", reopened.history_at(0).description());
    assert_eq!("one", reopened.history_at(1).description());
}

#[test]
fn reopened_account_keeps_writing_after_its_pages() {
    let mut file: Vec<u8> = Vec::new();
    let mut account = Account::with_database(&file, 0).unwrap();
    apply(&mut account, &mut file, tx(10, TransactionKind::Credit, "a")).unwrap();
    let mut reopened = Account::with_database(&file, 0).unwrap();
    apply(&mut reopened, &mut file, tx(4, TransactionKind::Debit, "b")).unwrap();
    assert_eq!(2 * PAGE_SIZE, file.len());
    let again = Account::with_database(&file, 0).unwrap();
    assert_eq!(6, again.balance());
    assert_eq!(2, again.history_len());
}

#[test]
fn empty_log_opens_with_zero_balance() {
    let account = Account::with_database(&[], 500).unwrap();
    assert_eq!(0, account.balance());
    assert_eq!(500, account.limit());
    assert_eq!(0, account.history_len());
}

#[test]
fn descriptions_are_one_to_ten_characters() {
    assert!(matches!(Description::new(String::new()), Err(LedgerError::InvalidDescription)));
    assert!(matches!(
        Description::new("abcdefghijk".to_string()),
        Err(LedgerError::InvalidDescription)
    ));
    assert_eq!("abcdefghij", Description::new("abcdefghij".to_string()).unwrap().as_str());
    assert_eq!("ççççççççç", Description::new("ççççççççç".to_string()).unwrap().as_str());
}

#[test]
fn amounts_must_be_positive() {
    let d = Description::new("x".to_string()).unwrap();
    assert!(matches!(Transaction::new(0, TransactionKind::Credit, d, 0), Err(LedgerError::InvalidAmount)));
    let d = Description::new("x".to_string()).unwrap();
    assert!(matches!(Transaction::new(-5, TransactionKind::Debit, d, 0), Err(LedgerError::InvalidAmount)));
}

#[test]
fn credit_overflow_is_refused() {
    let mut file: Vec<u8> = Vec::new();
    let mut account = Account::with_database(&file, 0).unwrap();
    apply(&mut account, &mut file, tx(i64::MAX, TransactionKind::Credit, "big")).unwrap();
    assert!(matches!(account.transact(tx(1, TransactionKind::Credit, "more")), Err(LedgerError::Overflow)));
    assert_eq!(i64::MAX, account.balance());
}

#[test]
fn undecodable_row_fails_the_reopen() {
    let mut file: Vec<u8> = Vec::new();
    let mut account = Account::with_database(&file, 0).unwrap();
    apply(&mut account, &mut file, tx(1, TransactionKind::Credit, "a")).unwrap();
    // a second slot whose payload is not a ledger row
    file[128 + 7] = 2;
    file[128 + 8] = 0xFF;
    file[128 + 9] = 0xFF;
    assert!(matches!(
        Account::with_database(&file, 0),
        Err(LedgerError::Storage(DatabaseError::Serialize))
    ));
}

#[test]
fn truncated_log_fails_the_reopen() {
    assert!(matches!(
        Account::with_database(&vec![0u8; 100], 0),
        Err(LedgerError::Storage(DatabaseError::InvalidPageSize))
    ));
}
