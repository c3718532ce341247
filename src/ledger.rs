use vstd::prelude::*;
use vstd::string::*;

use crate::codec::{decode_row, decoded_row, encode_row, encoded_row};
use crate::database::{
    applied, file_rows, page_image, Database, DatabaseView, PageWrite, MAX_PAGES,
};
use crate::error::DatabaseError;
use crate::page::{fits, payloads, slot_bytes, PAGE_SIZE};
use crate::ring_buffer::{lemma_recent_push, recent, RingBuffer};

verus! {

/// How many recent transactions an account keeps in memory.
pub const HISTORY_CAPACITY: usize = 10;

/// Slot size of the account log: one `(balance after, transaction)` row each.
pub const ROW_SLOT_SIZE: usize = 128;

/// The longest description, in characters.
pub const MAX_DESCRIPTION_LEN: usize = 10;

#[derive(Debug, Clone, Copy, PartialEq, Eq, Structural)]
pub enum LedgerError {
    /// A debit would take the balance below the negated limit.
    LimitExceeded,
    /// A description is empty or longer than ten characters.
    InvalidDescription,
    /// An amount is not positive.
    InvalidAmount,
    /// The new balance does not fit in an `i64`.
    Overflow,
    /// The log could not be read or written.
    Storage(DatabaseError),
}

#[derive(Debug, Clone, Copy, PartialEq, Eq, Structural)]
pub enum TransactionKind {
    Credit,
    Debit,
}

pub open spec fn valid_description(d: Seq<char>) -> bool {
    1 <= d.len() <= MAX_DESCRIPTION_LEN
}

/// A transaction as values.
pub ghost struct TransactionView {
    pub value: i64,
    pub kind: TransactionKind,
    pub description: Seq<char>,
    pub created_at: i128,
}

/// A description of one to ten characters.
pub struct Description {
    text: String,
}

impl View for Description {
    type V = Seq<char>;

    closed spec fn view(&self) -> Seq<char> {
        self.text@
    }
}

impl Description {
    #[verifier::type_invariant]
    spec fn inv(&self) -> bool {
        valid_description(self.text@)
    }

    /// Accepts a text of one to ten characters.
    pub fn new(text: String) -> (r: Result<Description, LedgerError>)
        ensures
            r is Ok <==> valid_description(text@),
            r is Ok ==> r->Ok_0@ == text@,
            r is Err ==> r->Err_0 == LedgerError::InvalidDescription,
    {
        let n = text.as_str().unicode_len();
        if n == 0 || n > MAX_DESCRIPTION_LEN {
            return Err(LedgerError::InvalidDescription);
        }
        Ok(Description { text })
    }

    pub fn as_str(&self) -> (r: &str)
        ensures
            r@ == self@,
            valid_description(r@),
    {
        proof {
            use_type_invariant(self);
        }
        self.text.as_str()
    }
}

/// An amount moved into or out of an account, with its description and its
/// creation time in nanoseconds since the Unix epoch.
pub struct Transaction {
    value: i64,
    kind: TransactionKind,
    description: Description,
    created_at: i128,
}

impl View for Transaction {
    type V = TransactionView;

    closed spec fn view(&self) -> TransactionView {
        TransactionView {
            value: self.value,
            kind: self.kind,
            description: self.description@,
            created_at: self.created_at,
        }
    }
}

impl TransactionView {
    pub open spec fn wf(self) -> bool {
        self.value > 0 && valid_description(self.description)
    }
}

impl Transaction {
    #[verifier::type_invariant]
    spec fn inv(&self) -> bool {
        self.value > 0 && valid_description(self.description@)
    }

    /// A transaction of a positive amount.
    pub fn new(value: i64, kind: TransactionKind, description: Description, created_at: i128) -> (r:
        Result<Transaction, LedgerError>)
        ensures
            r is Ok <==> value > 0,
            r is Ok ==> r->Ok_0@ == (TransactionView {
                value,
                kind,
                description: description@,
                created_at,
            }),
            r is Err ==> r->Err_0 == LedgerError::InvalidAmount,
    {
        proof {
            use_type_invariant(&description);
        }
        if value <= 0 {
            return Err(LedgerError::InvalidAmount);
        }
        Ok(Transaction { value, kind, description, created_at })
    }

    pub fn value(&self) -> (r: i64)
        ensures
            r == self@.value,
            self@.wf(),
    {
        proof {
            use_type_invariant(self);
        }
        self.value
    }

    pub fn kind(&self) -> (r: TransactionKind)
        ensures
            r == self@.kind,
    {
        self.kind
    }

    pub fn description(&self) -> (r: &str)
        ensures
            r@ == self@.description,
    {
        self.description.as_str()
    }

    pub fn created_at(&self) -> (r: i128)
        ensures
            r == self@.created_at,
    {
        self.created_at
    }
}

/// The encoded row of `(balance after, transaction)`.
pub open spec fn transaction_row(balance: i64, t: TransactionView) -> Seq<u8> {
    encoded_row(balance, t.value, t.kind == TransactionKind::Debit, t.description, t.created_at)
}

/// The `(balance after, transaction)` that a stored row holds, if it decodes
/// to a valid transaction.
pub open spec fn row_entry(bytes: Seq<u8>) -> Option<(i64, TransactionView)> {
    match decoded_row(bytes) {
        None => None,
        Some((balance, value, debit, description, created_at)) => {
            let t = TransactionView {
                value,
                kind: if debit {
                    TransactionKind::Debit
                } else {
                    TransactionKind::Credit
                },
                description,
                created_at,
            };
            if t.wf() {
                Some((balance, t))
            } else {
                None
            }
        },
    }
}

pub open spec fn log_valid(rows: Seq<Seq<u8>>) -> bool {
    forall|i: int| 0 <= i < rows.len() ==> (#[trigger] row_entry(rows[i])) is Some
}

pub open spec fn log_transactions(rows: Seq<Seq<u8>>) -> Seq<TransactionView> {
    rows.map_values(|r: Seq<u8>| (row_entry(r)->0).1)
}

/// The balance after the last row of the log, or zero for an empty log.
pub open spec fn log_balance(rows: Seq<Seq<u8>>) -> i64 {
    if rows.len() == 0 {
        0
    } else {
        (row_entry(rows.last())->0).0
    }
}

/// The balance after applying `t`, or `None` where a debit exceeds
/// `balance + limit`.
pub open spec fn next_balance(balance: int, limit: int, t: TransactionView) -> Option<int> {
    match t.kind {
        TransactionKind::Credit => Some(balance + t.value),
        TransactionKind::Debit => if t.value <= balance + limit {
            Some(balance - t.value)
        } else {
            None
        },
    }
}

/// The history after `t`: in front, the oldest dropped when full.
pub open spec fn history_push(h: Seq<TransactionView>, t: TransactionView) -> Seq<
    TransactionView,
> {
    if h.len() >= HISTORY_CAPACITY {
        seq![t] + h.drop_last()
    } else {
        seq![t] + h
    }
}

pub ghost struct AccountView {
    pub limit: i64,
    pub balance: i64,
    pub history: Seq<TransactionView>,
    pub database: DatabaseView,
}

impl AccountView {
    /// The state is what a replay of `file`, holding `rows`, rebuilds.
    pub open spec fn backed_by(self, file: Seq<u8>, rows: Seq<Seq<u8>>) -> bool {
        &&& self.database.stores(file, rows)
        &&& log_valid(rows)
        &&& self.balance == log_balance(rows)
        &&& self.history == recent(log_transactions(rows), HISTORY_CAPACITY as nat)
    }
}

/// A debit beyond `balance + limit` is refused; a credit is accepted
/// whatever the limit.
pub proof fn lemma_limit_rule(balance: int, limit: int, t: TransactionView)
    ensures
        t.kind == TransactionKind::Debit && t.value > balance + limit ==> next_balance(
            balance,
            limit,
            t,
        ) is None,
        t.kind == TransactionKind::Credit ==> next_balance(balance, limit, t) == Some(
            balance + t.value,
        ),
        t.wf() && next_balance(balance, limit, t) is Some && balance + limit >= 0 ==> next_balance(
            balance,
            limit,
            t,
        )->0 + limit >= 0,
{
}

/// Committing a transaction whose page write was performed keeps the account
/// in step with its file: the log gains the row, the balance is the row's,
/// and the history is that of the longer log.
pub proof fn lemma_commit_keeps_backing(
    a: AccountView,
    p: PendingView,
    file: Seq<u8>,
    rows: Seq<Seq<u8>>,
)
    requires
        a.backed_by(file, rows),
        row_entry(p.payload) == Some((p.balance, p.transaction)),
        p.database.stores(applied(file, p.offset, p.image), rows.push(p.payload)),
    ensures
        (AccountView {
            limit: a.limit,
            balance: p.balance,
            history: history_push(a.history, p.transaction),
            database: p.database,
        }).backed_by(applied(file, p.offset, p.image), rows.push(p.payload)),
{
    let longer = rows.push(p.payload);
    assert forall|i: int| 0 <= i < longer.len() implies (#[trigger] row_entry(longer[i])) is Some by {
        if i < rows.len() {
            assert(row_entry(rows[i]) is Some);
        }
    }
    assert(log_transactions(longer) =~= log_transactions(rows).push(p.transaction));
    lemma_recent_push(log_transactions(rows), p.transaction, HISTORY_CAPACITY as nat);
}

/// An account reopened from its file has the balance and history that the
/// account had when it last wrote that file.
pub proof fn lemma_reopen_restores(
    live: AccountView,
    reopened: AccountView,
    file: Seq<u8>,
    rows: Seq<Seq<u8>>,
)
    requires
        live.backed_by(file, rows),
        reopened.backed_by(file, file_rows(file, ROW_SLOT_SIZE as nat)->Ok_0),
        live.database.slot_size == ROW_SLOT_SIZE,
    ensures
        reopened.balance == live.balance,
        reopened.history == live.history,
{
}

/// The rebuilt history holds the last `min(10, n)` transactions of the log,
/// newest first, and the rebuilt balance is that of the last row.
pub proof fn lemma_rebuilt_state(rows: Seq<Seq<u8>>)
    requires
        log_valid(rows),
    ensures
        ({
            let h = recent(log_transactions(rows), HISTORY_CAPACITY as nat);
            let n = rows.len();
            &&& h.len() == if n < HISTORY_CAPACITY {
                n
            } else {
                HISTORY_CAPACITY as nat
            }
            &&& forall|i: int| 0 <= i < h.len() ==> #[trigger] h[i] == (row_entry(rows[n - 1 - i])->0).1
            &&& n > 0 ==> log_balance(rows) == (row_entry(rows[n - 1])->0).0
        }),
{
}

/// An accepted transaction whose row is ready to be written. The account
/// takes it over with `commit` once the write has succeeded.
pub struct Pending {
    balance: i64,
    transaction: Transaction,
    payload: Ghost<Seq<u8>>,
    database: Database,
    write: PageWrite,
    base: Ghost<AccountView>,
}

pub ghost struct PendingView {
    pub balance: i64,
    pub transaction: TransactionView,
    pub payload: Seq<u8>,
    pub database: DatabaseView,
    pub offset: nat,
    pub image: Seq<u8>,
    /// The account state the transaction was decided on.
    pub base: AccountView,
}

impl View for Pending {
    type V = PendingView;

    closed spec fn view(&self) -> PendingView {
        PendingView {
            balance: self.balance,
            transaction: self.transaction@,
            payload: self.payload@,
            database: self.database@,
            offset: self.write.offset as nat,
            image: self.write.image@,
            base: self.base@,
        }
    }
}

impl Pending {
    #[verifier::type_invariant]
    spec fn inv(&self) -> bool {
        self.database@.wf() && self.database@.slot_size == ROW_SLOT_SIZE
    }

    /// The page write that makes the transaction durable.
    pub fn write(&self) -> (r: &PageWrite)
        ensures
            r.offset == self@.offset,
            r.image@ == self@.image,
    {
        &self.write
    }

    /// The balance the account will have once committed.
    pub fn balance(&self) -> (r: i64)
        ensures
            r == self@.balance,
    {
        self.balance
    }
}

/// One account: its limit, balance, recent history and the log behind them.
pub struct Account {
    limit: i64,
    balance: i64,
    transactions: RingBuffer<Transaction>,
    database: Database,
}

impl View for Account {
    type V = AccountView;

    closed spec fn view(&self) -> AccountView {
        AccountView {
            limit: self.limit,
            balance: self.balance,
            history: self.transactions@.map_values(|t: Transaction| t@),
            database: self.database@,
        }
    }
}

impl Account {
    pub closed spec fn wf(&self) -> bool {
        &&& self.limit >= 0
        &&& self.transactions.wf()
        &&& self.transactions.capacity_spec() == HISTORY_CAPACITY
        &&& self.database@.wf()
        &&& self.database@.slot_size == ROW_SLOT_SIZE
    }

    /// Rebuilds an account from the bytes of its log file: the balance after
    /// the last row (zero if none), the last ten transactions newest first,
    /// and a store that appends after the pages already there.
    pub fn with_database(file: &[u8], limit: i64) -> (r: Result<Account, LedgerError>)
        requires
            limit >= 0,
        ensures
            file_rows(file@, ROW_SLOT_SIZE as nat) is Err ==> r == Err::<Account, _>(
                LedgerError::Storage(file_rows(file@, ROW_SLOT_SIZE as nat)->Err_0),
            ),
            file_rows(file@, ROW_SLOT_SIZE as nat) is Ok && !log_valid(
                file_rows(file@, ROW_SLOT_SIZE as nat)->Ok_0,
            ) ==> r == Err::<Account, _>(LedgerError::Storage(DatabaseError::Serialize)),
            r is Ok <==> file_rows(file@, ROW_SLOT_SIZE as nat) is Ok && log_valid(
                file_rows(file@, ROW_SLOT_SIZE as nat)->Ok_0,
            ),
            r is Ok ==> r->Ok_0.wf(),
            r is Ok ==> r->Ok_0@.limit == limit,
            r is Ok ==> r->Ok_0@.database == (DatabaseView {
                slot_size: ROW_SLOT_SIZE as nat,
                page_index: file@.len() / (PAGE_SIZE as nat),
                current: seq![],
                current_rows: seq![],
            }),
            r is Ok ==> r->Ok_0@.backed_by(file@, file_rows(file@, ROW_SLOT_SIZE as nat)->Ok_0),
    {
        assert((file.len() as u64) / (PAGE_SIZE as u64) <= MAX_PAGES) by (nonlinear_arith)
            requires file.len() <= usize::MAX;
        let database = match Database::open(ROW_SLOT_SIZE, file.len() as u64) {
            Ok(d) => d,
            Err(e) => {
                return Err(LedgerError::Storage(e));
            },
        };
        let rows = match database.rows(file) {
            Ok(v) => v,
            Err(e) => {
                return Err(LedgerError::Storage(e));
            },
        };
        let ghost rs = payloads(rows@);
        let mut balance: i64 = 0;
        let mut transactions: RingBuffer<Transaction> = RingBuffer::with_capacity(HISTORY_CAPACITY);
        let mut i: usize = 0;
        while i < rows.len()
            invariant
                rs == payloads(rows@),
                file_rows(file@, ROW_SLOT_SIZE as nat) == Ok::<_, DatabaseError>(rs),
                i <= rows@.len(),
                forall|j: int| 0 <= j < i ==> (#[trigger] row_entry(rs[j])) is Some,
                balance == log_balance(rs.subrange(0, i as int)),
                transactions.wf(),
                transactions.capacity_spec() == HISTORY_CAPACITY,
                transactions@.map_values(|t: Transaction| t@) == recent(
                    log_transactions(rs.subrange(0, i as int)),
                    HISTORY_CAPACITY as nat,
                ),
            decreases rows@.len() - i,
        {
            assert(rs[i as int] == rows@[i as int]@);
            let decoded = decode_row(rows[i].as_slice());
            let (b, value, debit, text, created_at) = match decoded {
                Ok(t) => t,
                Err(_) => {
                    assert(row_entry(rs[i as int]) is None);
                    return Err(LedgerError::Storage(DatabaseError::Serialize));
                },
            };
            let description = match Description::new(text) {
                Ok(d) => d,
                Err(_) => {
                    assert(row_entry(rs[i as int]) is None);
                    return Err(LedgerError::Storage(DatabaseError::Serialize));
                },
            };
            let kind = if debit {
                TransactionKind::Debit
            } else {
                TransactionKind::Credit
            };
            let transaction = match Transaction::new(value, kind, description, created_at) {
                Ok(t) => t,
                Err(_) => {
                    assert(row_entry(rs[i as int]) is None);
                    return Err(LedgerError::Storage(DatabaseError::Serialize));
                },
            };
            let ghost items = log_transactions(rs.subrange(0, i as int));
            assert(row_entry(rs[i as int]) == Some((b, transaction@)));
            balance = b;
            transactions.push(transaction);
            proof {
                let next = rs.subrange(0, i + 1);
                assert(log_transactions(next) =~= items.push(transaction@));
                lemma_recent_push(items, transaction@, HISTORY_CAPACITY as nat);
                assert(transactions@.map_values(|t: Transaction| t@) =~= recent(
                    log_transactions(next),
                    HISTORY_CAPACITY as nat,
                ));
                assert(next.last() == rs[i as int]);
            }
            i = i + 1;
        }
        assert(rs.subrange(0, i as int) =~= rs);
        let account = Account { limit, balance, transactions, database };
        proof {
            assert(account@.database.current =~= crate::page::slots_image(
                Seq::<Seq<u8>>::empty(),
                ROW_SLOT_SIZE as nat,
            ));
        }
        Ok(account)
    }

    pub fn limit(&self) -> (r: i64)
        ensures
            r == self@.limit,
    {
        self.limit
    }

    pub fn balance(&self) -> (r: i64)
        ensures
            r == self@.balance,
    {
        self.balance
    }

    /// The number of transactions in the history.
    pub fn history_len(&self) -> (r: usize)
        ensures
            r == self@.history.len(),
    {
        self.transactions.len()
    }

    /// The `i`-th most recent transaction.
    pub fn history_at(&self, i: usize) -> (r: &Transaction)
        requires
            i < self@.history.len(),
        ensures
            r@ == self@.history[i as int],
    {
        self.transactions.get(i)
    }

    /// Decides on a transaction. A credit is always accepted; a debit only
    /// when it does not exceed `balance + limit`. An accepted one comes back
    /// with its encoded row placed in the log and the page write to perform;
    /// the account itself changes only through `commit`.
    pub fn transact(&self, transaction: Transaction) -> (r: Result<Pending, LedgerError>)
        requires
            self.wf(),
        ensures
            ({
                let b = next_balance(self@.balance as int, self@.limit as int, transaction@);
                &&& r == Err::<Pending, _>(LedgerError::LimitExceeded) <==> b is None
                &&& r == Err::<Pending, _>(LedgerError::Overflow) <==> b is Some && b->0
                    > i64::MAX
                &&& r is Ok <==> b is Some && b->0 <= i64::MAX && self@.database.page_index
                    < MAX_PAGES && fits(
                    transaction_row(b->0 as i64, transaction@),
                    ROW_SLOT_SIZE as nat,
                )
                &&& r is Err ==> (r->Err_0 == LedgerError::LimitExceeded || r->Err_0
                    == LedgerError::Overflow || r->Err_0 is Storage)
                &&& r matches Err(LedgerError::Storage(e)) ==> b is Some && b->0 <= i64::MAX
                    && (e == DatabaseError::EmptyRow || e == DatabaseError::RowTooLarge || e
                    == DatabaseError::Io)
            }),
            r is Ok ==> ({
                let p = r->Ok_0@;
                &&& p.base == self@
                &&& next_balance(self@.balance as int, self@.limit as int, transaction@) == Some(
                    p.balance as int,
                )
                &&& p.transaction == transaction@
                &&& p.payload == transaction_row(p.balance, transaction@)
                &&& row_entry(p.payload) == Some((p.balance, transaction@))
                &&& p.database == self@.database.after_insert(p.payload)
                &&& p.offset == self@.database.page_index * PAGE_SIZE
                &&& p.image == page_image(
                    self@.database.current + slot_bytes(p.payload, ROW_SLOT_SIZE as nat),
                )
                &&& forall|file: Seq<u8>, rows: Seq<Seq<u8>>|
                    #[trigger] self@.database.stores(file, rows) ==> p.database.stores(
                        applied(file, p.offset, p.image),
                        rows.push(p.payload),
                    )
            }),
    {
        let value = transaction.value();
        let balance: i64 = match transaction.kind() {
            TransactionKind::Credit => {
                if (self.balance as i128) + (value as i128) > i64::MAX as i128 {
                    return Err(LedgerError::Overflow);
                }
                self.balance + value
            },
            TransactionKind::Debit => {
                if (value as i128) > (self.balance as i128) + (self.limit as i128) {
                    return Err(LedgerError::LimitExceeded);
                }
                self.balance - value
            },
        };
        let row = match encode_row(
            balance,
            value,
            transaction.kind() == TransactionKind::Debit,
            transaction.description(),
            transaction.created_at(),
        ) {
            Ok(bytes) => bytes,
            Err(_) => {
                return Err(LedgerError::Storage(DatabaseError::Serialize));
            },
        };
        let (database, write) = match self.database.insert(row.as_slice()) {
            Ok(next) => next,
            Err(e) => {
                return Err(LedgerError::Storage(e));
            },
        };
        Ok(
            Pending {
                balance,
                transaction,
                payload: Ghost(row@),
                database,
                write,
                base: Ghost(self@),
            },
        )
    }

    /// Takes over an accepted transaction after its write has succeeded:
    /// the balance, the history and the log state move on together. The
    /// transaction must have been decided on this account in its present
    /// state.
    pub fn commit(&mut self, pending: Pending)
        requires
            old(self).wf(),
            pending@.base == old(self)@,
        ensures
            final(self).wf(),
            final(self)@ == (AccountView {
                limit: old(self)@.limit,
                balance: pending@.balance,
                history: history_push(old(self)@.history, pending@.transaction),
                database: pending@.database,
            }),
    {
        proof {
            use_type_invariant(&pending);
        }
        let Pending { balance, transaction, database, .. } = pending;
        let ghost before = self.transactions@;
        self.balance = balance;
        self.database = database;
        self.transactions.push(transaction);
        assert(self.transactions@.map_values(|t: Transaction| t@) =~= history_push(
            before.map_values(|t: Transaction| t@),
            transaction@,
        ));
    }
}

} // verus!
