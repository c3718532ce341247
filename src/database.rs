use vstd::prelude::*;

use crate::error::DatabaseError;
use crate::page::{
    fits, page_rows, payloads, slot_bytes, slots_image, valid_slot_size, zeros, Page, HEADER_SIZE,
    PAGE_SIZE, lemma_slot_bytes_len, lemma_slots_image_len, lemma_slots_image_push,
    lemma_slots_read_back,
};

verus! {

/// The most pages whose byte offsets, and the page after them, fit in a `u64`.
pub const MAX_PAGES: u64 = 4503599627370495;

/// A page's bytes padded with zeros to the page size.
pub open spec fn page_image(bytes: Seq<u8>) -> Seq<u8> {
    bytes + zeros((PAGE_SIZE - bytes.len()) as nat)
}

/// The file after `image` has been written at byte `offset`.
pub open spec fn applied(file: Seq<u8>, offset: nat, image: Seq<u8>) -> Seq<u8> {
    file.subrange(0, offset as int) + image + if offset + image.len() < file.len() {
        file.subrange((offset + image.len()) as int, file.len() as int)
    } else {
        Seq::<u8>::empty()
    }
}

/// The rows of the whole pages from byte `off` on, page after page.
pub open spec fn pages_from(file: Seq<u8>, s: nat, off: nat) -> Result<
    Seq<Seq<u8>>,
    DatabaseError,
>
    decreases file.len() - off,
{
    if off + PAGE_SIZE > file.len() {
        Ok(seq![])
    } else {
        match page_rows(file.subrange(off as int, off + PAGE_SIZE), s) {
            None => Err(DatabaseError::CorruptSlot),
            Some(r) => match pages_from(file, s, (off + PAGE_SIZE) as nat) {
                Ok(rest) => Ok(r + rest),
                Err(e) => Err(e),
            },
        }
    }
}

/// What a replay of the file finds: every row of every page, in order.
pub open spec fn file_rows(file: Seq<u8>, s: nat) -> Result<Seq<Seq<u8>>, DatabaseError> {
    if file.len() % (PAGE_SIZE as nat) != 0 {
        Err(DatabaseError::InvalidPageSize)
    } else {
        pages_from(file, s, 0)
    }
}

pub open spec fn join(
    a: Result<Seq<Seq<u8>>, DatabaseError>,
    b: Result<Seq<Seq<u8>>, DatabaseError>,
) -> Result<Seq<Seq<u8>>, DatabaseError> {
    match a {
        Err(e) => Err(e),
        Ok(x) => match b {
            Err(e) => Err(e),
            Ok(y) => Ok(x + y),
        },
    }
}

/// The storage state: slot size, the index of the page being filled, its
/// bytes, and the payloads in it.
pub ghost struct DatabaseView {
    pub slot_size: nat,
    pub page_index: nat,
    pub current: Seq<u8>,
    pub current_rows: Seq<Seq<u8>>,
}

impl DatabaseView {
    pub open spec fn wf(self) -> bool {
        &&& valid_slot_size(self.slot_size)
        &&& self.page_index <= MAX_PAGES
        &&& self.current == slots_image(self.current_rows, self.slot_size)
        &&& forall|i: int|
            0 <= i < self.current_rows.len() ==> fits(#[trigger] self.current_rows[i], self.slot_size)
        &&& self.current.len() + self.slot_size <= PAGE_SIZE
    }

    /// The file holds exactly the pages this state has written, and replays
    /// as `rows`.
    pub open spec fn stores(self, file: Seq<u8>, rows: Seq<Seq<u8>>) -> bool {
        &&& file_rows(file, self.slot_size) == Ok::<_, DatabaseError>(rows)
        &&& if self.current_rows.len() == 0 {
            file.len() == self.page_index * PAGE_SIZE
        } else {
            &&& file.len() == self.page_index * PAGE_SIZE + PAGE_SIZE
            &&& file.subrange(self.page_index * PAGE_SIZE, file.len() as int) == page_image(
                self.current,
            )
        }
    }

    /// The state after `row` has been appended: the current page moves on to
    /// the next one when it has no slot left.
    pub open spec fn after_insert(self, row: Seq<u8>) -> DatabaseView {
        let cur = self.current + slot_bytes(row, self.slot_size);
        if cur.len() + self.slot_size > PAGE_SIZE {
            DatabaseView {
                slot_size: self.slot_size,
                page_index: self.page_index + 1,
                current: seq![],
                current_rows: seq![],
            }
        } else {
            DatabaseView {
                slot_size: self.slot_size,
                page_index: self.page_index,
                current: cur,
                current_rows: self.current_rows.push(row),
            }
        }
    }
}

/// The bytes to write at a file offset to make one page durable.
pub struct PageWrite {
    pub offset: u64,
    pub image: Vec<u8>,
}

/// A page-structured row store for one file. It decides what to write;
/// the caller performs the write and keeps the new state only once the
/// write has succeeded.
pub struct Database {
    current: Page,
    page_index: u64,
    current_rows: Ghost<Seq<Seq<u8>>>,
}

impl View for Database {
    type V = DatabaseView;

    closed spec fn view(&self) -> DatabaseView {
        DatabaseView {
            slot_size: self.current@.slot_size,
            page_index: self.page_index as nat,
            current: self.current@.bytes,
            current_rows: self.current_rows@,
        }
    }
}

pub proof fn lemma_pages_shift(pre: Seq<u8>, d: Seq<u8>, s: nat, off: nat)
    ensures
        pages_from(pre + d, s, pre.len() + off) == pages_from(d, s, off),
    decreases d.len() - off,
{
    let o = pre.len() + off;
    if off + PAGE_SIZE <= d.len() {
        assert((pre + d).subrange(o as int, o + PAGE_SIZE) =~= d.subrange(
            off as int,
            off + PAGE_SIZE,
        ));
        lemma_pages_shift(pre, d, s, (off + PAGE_SIZE) as nat);
        assert(pre.len() + (off + PAGE_SIZE) == o + PAGE_SIZE);
    }
}

pub proof fn lemma_pages_split(a: Seq<u8>, b: Seq<u8>, s: nat, off: nat, j: nat)
    requires
        a.len() == off + j * PAGE_SIZE,
    ensures
        pages_from(a + b, s, off) == join(pages_from(a, s, off), pages_from(b, s, 0)),
    decreases j,
{
    if j == 0 {
        lemma_pages_shift(a, b, s, 0);
        match pages_from(b, s, 0) {
            Ok(y) => {
                assert(Seq::<Seq<u8>>::empty() + y =~= y);
            },
            Err(_) => {},
        }
    } else {
        assert((a + b).subrange(off as int, off + PAGE_SIZE) =~= a.subrange(
            off as int,
            off + PAGE_SIZE,
        ));
        lemma_pages_split(a, b, s, (off + PAGE_SIZE) as nat, (j - 1) as nat);
        match page_rows(a.subrange(off as int, off + PAGE_SIZE), s) {
            Some(r) => match pages_from(a, s, (off + PAGE_SIZE) as nat) {
                Ok(rest) => match pages_from(b, s, 0) {
                    Ok(y) => {
                        assert(r + (rest + y) =~= (r + rest) + y);
                    },
                    Err(_) => {},
                },
                Err(_) => {},
            },
            None => {},
        }
    }
}

/// Replaying two files written one after the other, each a whole number of
/// pages, gives the rows of the first and then those of the second.
pub proof fn lemma_file_rows_concat(a: Seq<u8>, b: Seq<u8>, s: nat)
    requires
        a.len() % (PAGE_SIZE as nat) == 0,
        b.len() % (PAGE_SIZE as nat) == 0,
    ensures
        file_rows(a + b, s) == join(file_rows(a, s), file_rows(b, s)),
{
    let j = a.len() / (PAGE_SIZE as nat);
    assert(a.len() == j * PAGE_SIZE);
    lemma_pages_split(a, b, s, 0, j);
    assert((a + b).len() % (PAGE_SIZE as nat) == 0) by {
        let k = b.len() / (PAGE_SIZE as nat);
        assert((a + b).len() == (j + k) * PAGE_SIZE);
    }
}

/// A page image built from fitting rows replays as those rows.
pub proof fn lemma_page_image_rows(rows: Seq<Seq<u8>>, s: nat)
    requires
        valid_slot_size(s),
        forall|i: int| 0 <= i < rows.len() ==> fits(#[trigger] rows[i], s),
        slots_image(rows, s).len() <= PAGE_SIZE,
    ensures
        page_image(slots_image(rows, s)).len() == PAGE_SIZE,
        file_rows(page_image(slots_image(rows, s)), s) == Ok::<_, DatabaseError>(rows),
{
    let img = page_image(slots_image(rows, s));
    let tail = zeros((PAGE_SIZE - slots_image(rows, s).len()) as nat);
    lemma_slots_read_back(rows, s, tail);
    assert(img.len() == PAGE_SIZE);
    assert(img.subrange(0, PAGE_SIZE as int) =~= img);
    assert(pages_from(img, s, PAGE_SIZE as nat) == Ok::<_, DatabaseError>(Seq::<Seq<u8>>::empty()));
    assert(rows + Seq::<Seq<u8>>::empty() =~= rows);
}

pub proof fn lemma_after_insert_wf(db: DatabaseView, row: Seq<u8>)
    requires
        db.wf(),
        db.page_index < MAX_PAGES,
        fits(row, db.slot_size),
    ensures
        db.after_insert(row).wf(),
{
    let s = db.slot_size;
    let cur2_rows = db.current_rows.push(row);
    lemma_slots_image_push(db.current_rows, row, s);
    assert forall|i: int| 0 <= i < cur2_rows.len() implies fits(#[trigger] cur2_rows[i], s) by {
        if i < db.current_rows.len() {
            assert(fits(db.current_rows[i], s));
        }
    }
    assert(slots_image(Seq::<Seq<u8>>::empty(), s) =~= Seq::<u8>::empty());
}

/// Writing the next page image over the current page keeps the file in step
/// with the state, and its replay gains exactly the new row.
#[verifier::rlimit(60)]
pub proof fn lemma_insert_stores(
    db: DatabaseView,
    file: Seq<u8>,
    rows: Seq<Seq<u8>>,
    row: Seq<u8>,
)
    requires
        db.wf(),
        db.stores(file, rows),
        db.page_index < MAX_PAGES,
        fits(row, db.slot_size),
    ensures
        db.after_insert(row).wf(),
        db.after_insert(row).stores(
            applied(
                file,
                (db.page_index * PAGE_SIZE) as nat,
                page_image(db.current + slot_bytes(row, db.slot_size)),
            ),
            rows.push(row),
        ),
{
    let s = db.slot_size;
    let off = (db.page_index * PAGE_SIZE) as nat;
    let cur2_rows = db.current_rows.push(row);
    let cur2 = db.current + slot_bytes(row, s);
    lemma_slots_image_push(db.current_rows, row, s);
    lemma_slot_bytes_len(row, s);
    assert forall|i: int| 0 <= i < cur2_rows.len() implies fits(#[trigger] cur2_rows[i], s) by {
        if i < db.current_rows.len() {
            assert(fits(db.current_rows[i], s));
        }
    }
    let img = page_image(cur2);
    lemma_page_image_rows(cur2_rows, s);
    let prefix = file.subrange(0, off as int);
    let file2 = applied(file, off, img);
    assert(file2 =~= prefix + img);
    assert(prefix.len() % (PAGE_SIZE as nat) == 0) by {
        assert(prefix.len() == db.page_index * PAGE_SIZE);
    }
    lemma_file_rows_concat(prefix, img, s);
    if db.current_rows.len() == 0 {
        assert(prefix =~= file);
        assert(rows + cur2_rows =~= rows.push(row)) by {
            assert(cur2_rows =~= seq![row]);
        }
    } else {
        let old_img = page_image(db.current);
        lemma_page_image_rows(db.current_rows, s);
        assert(file =~= prefix + old_img);
        lemma_file_rows_concat(prefix, old_img, s);
        let r0 = file_rows(prefix, s)->Ok_0;
        assert(r0 + db.current_rows == rows);
        assert(r0 + cur2_rows =~= rows.push(row));
    }
    assert(file2.len() == off + PAGE_SIZE);
    lemma_after_insert_wf(db, row);
    if cur2.len() + s <= PAGE_SIZE {
        assert(file2.subrange(off as int, file2.len() as int) =~= img);
    }
}

/// A file that replays cleanly, reopened: the new state stores it as it is.
pub proof fn lemma_open_stores(db: DatabaseView, file: Seq<u8>, rows: Seq<Seq<u8>>)
    requires
        db.current_rows.len() == 0,
        file.len() == db.page_index * PAGE_SIZE,
        file_rows(file, db.slot_size) == Ok::<_, DatabaseError>(rows),
    ensures
        db.stores(file, rows),
{
}

/// The state and file after each of `rows` has been inserted, in order, and
/// each insert's page write performed.
pub open spec fn after_inserts(db: DatabaseView, file: Seq<u8>, rows: Seq<Seq<u8>>) -> (
    DatabaseView,
    Seq<u8>,
)
    decreases rows.len(),
{
    if rows.len() == 0 {
        (db, file)
    } else {
        let (d, f) = after_inserts(db, file, rows.drop_last());
        (
            d.after_insert(rows.last()),
            applied(
                f,
                (d.page_index * PAGE_SIZE) as nat,
                page_image(d.current + slot_bytes(rows.last(), d.slot_size)),
            ),
        )
    }
}

/// Inserting rows and performing their writes keeps the file in step with
/// the state: it replays as the rows it held, then the new ones in order.
pub proof fn lemma_inserts_stored(
    db: DatabaseView,
    file: Seq<u8>,
    prior: Seq<Seq<u8>>,
    rows: Seq<Seq<u8>>,
)
    requires
        db.wf(),
        db.stores(file, prior),
        db.page_index + rows.len() <= MAX_PAGES,
        forall|i: int| 0 <= i < rows.len() ==> fits(#[trigger] rows[i], db.slot_size),
    ensures
        after_inserts(db, file, rows).0.wf(),
        after_inserts(db, file, rows).0.slot_size == db.slot_size,
        after_inserts(db, file, rows).0.page_index <= db.page_index + rows.len(),
        after_inserts(db, file, rows).0.stores(after_inserts(db, file, rows).1, prior + rows),
    decreases rows.len(),
{
    if rows.len() == 0 {
        assert(prior + rows =~= prior);
    } else {
        let init = rows.drop_last();
        assert forall|i: int| 0 <= i < init.len() implies fits(#[trigger] init[i], db.slot_size) by {
            assert(fits(rows[i], db.slot_size));
        }
        lemma_inserts_stored(db, file, prior, init);
        let (d, f) = after_inserts(db, file, init);
        assert(fits(rows[rows.len() - 1], db.slot_size));
        lemma_insert_stores(d, f, prior + init, rows.last());
        assert((prior + init).push(rows.last()) =~= prior + rows);
    }
}

/// Cutting a file that replays cleanly at any page boundary leaves a file
/// that replays cleanly, as a prefix of the original rows.
pub proof fn lemma_truncated_replay(file: Seq<u8>, s: nat, rows: Seq<Seq<u8>>, pages: nat)
    requires
        file_rows(file, s) == Ok::<_, DatabaseError>(rows),
        pages * PAGE_SIZE <= file.len(),
    ensures
        ({
            let r = file_rows(file.subrange(0, pages * PAGE_SIZE), s);
            &&& r is Ok
            &&& r->Ok_0.len() <= rows.len()
            &&& rows.subrange(0, r->Ok_0.len() as int) == r->Ok_0
        }),
{
    let a = file.subrange(0, pages * PAGE_SIZE);
    let b = file.subrange(pages * PAGE_SIZE, file.len() as int);
    assert(a + b =~= file);
    assert(a.len() % (PAGE_SIZE as nat) == 0);
    let n = file.len() / (PAGE_SIZE as nat);
    assert(file.len() == n * PAGE_SIZE);
    assert(b.len() == (n - pages) * PAGE_SIZE);
    assert(b.len() % (PAGE_SIZE as nat) == 0);
    lemma_file_rows_concat(a, b, s);
    let x = file_rows(a, s)->Ok_0;
    let y = file_rows(b, s)->Ok_0;
    assert(x + y == rows);
    assert(rows.subrange(0, x.len() as int) =~= x);
}

/// How many slots one page holds.
pub open spec fn rows_per_page(s: nat) -> nat {
    (PAGE_SIZE as nat) / s
}

/// A fresh state for slot size `s` and an empty file.
pub open spec fn fresh(s: nat) -> DatabaseView {
    DatabaseView { slot_size: s, page_index: 0, current: seq![], current_rows: seq![] }
}

/// The current page moves on exactly when its last slot is filled.
pub proof fn lemma_after_insert_count(db: DatabaseView, row: Seq<u8>)
    requires
        db.wf(),
        fits(row, db.slot_size),
    ensures
        db.current_rows.len() < rows_per_page(db.slot_size),
        rows_per_page(db.slot_size) >= 1,
        db.current_rows.len() + 1 == rows_per_page(db.slot_size) ==> {
            &&& db.after_insert(row).page_index == db.page_index + 1
            &&& db.after_insert(row).current_rows.len() == 0
        },
        db.current_rows.len() + 1 < rows_per_page(db.slot_size) ==> {
            &&& db.after_insert(row).page_index == db.page_index
            &&& db.after_insert(row).current_rows.len() == db.current_rows.len() + 1
        },
{
    let s = db.slot_size as int;
    let k = db.current_rows.len() as int;
    let p = PAGE_SIZE as int;
    lemma_slots_image_len(db.current_rows, db.slot_size);
    lemma_slot_bytes_len(row, db.slot_size);
    vstd::arithmetic::div_mod::lemma_fundamental_div_mod(p, s);
    let kk = p / s;
    let r = p % s;
    assert(0 <= r < s) by {
        vstd::arithmetic::div_mod::lemma_mod_bound(p, s);
    }
    assert(k * s == db.current.len());
    assert(k + 1 <= kk) by (nonlinear_arith)
        requires
            k * s + s <= p,
            p == s * kk + r,
            0 <= r < s,
            s > 0,
    ;
    assert(kk >= 1) by (nonlinear_arith)
        requires
            s <= p,
            p == s * kk + r,
            0 <= r < s,
            s > 0,
    ;
    assert(((k + 1) * s + s > p) <==> (k + 1 >= kk)) by (nonlinear_arith)
        requires
            p == s * kk + r,
            0 <= r < s,
            s > 0,
            k >= 0,
    ;
    assert((db.current + slot_bytes(row, db.slot_size)).len() == (k + 1) * s) by (nonlinear_arith)
        requires
            db.current.len() == k * s,
            slot_bytes(row, db.slot_size).len() == s,
    ;
}

/// After `n` inserts into a fresh store, `n` is `page_index` whole pages of
/// `rows_per_page` rows plus the rows of the current page.
pub proof fn lemma_fresh_counts(s: nat, rows: Seq<Seq<u8>>)
    requires
        valid_slot_size(s),
        rows.len() <= MAX_PAGES,
        forall|i: int| 0 <= i < rows.len() ==> fits(#[trigger] rows[i], s),
    ensures
        ({
            let (d, f) = after_inserts(fresh(s), seq![], rows);
            &&& d.wf()
            &&& d.slot_size == s
            &&& d.stores(f, rows)
            &&& rows.len() == d.page_index * rows_per_page(s) + d.current_rows.len()
            &&& d.current_rows.len() < rows_per_page(s)
        }),
    decreases rows.len(),
{
    assert(fresh(s).current =~= slots_image(Seq::<Seq<u8>>::empty(), s));
    assert(file_rows(Seq::<u8>::empty(), s) == Ok::<_, DatabaseError>(Seq::<Seq<u8>>::empty()));
    lemma_inserts_stored(fresh(s), seq![], seq![], rows);
    assert(Seq::<Seq<u8>>::empty() + rows =~= rows);
    if rows.len() > 0 {
        let init = rows.drop_last();
        assert forall|i: int| 0 <= i < init.len() implies fits(#[trigger] init[i], s) by {
            assert(fits(rows[i], s));
        }
        lemma_fresh_counts(s, init);
        let (d, f) = after_inserts(fresh(s), seq![], init);
        assert(fits(rows[rows.len() - 1], s));
        lemma_after_insert_count(d, rows.last());
        let kk = rows_per_page(s);
        let p = d.page_index;
        assert((p + 1) * kk == p * kk + kk) by (nonlinear_arith);
    } else {
        lemma_after_insert_count_empty(s);
    }
}

proof fn lemma_after_insert_count_empty(s: nat)
    requires
        valid_slot_size(s),
    ensures
        rows_per_page(s) >= 1,
{
    assert((PAGE_SIZE as nat) / s >= 1) by (nonlinear_arith)
        requires
            0 < s <= PAGE_SIZE,
    ;
}

pub proof fn lemma_after_inserts_concat(
    db: DatabaseView,
    file: Seq<u8>,
    a: Seq<Seq<u8>>,
    b: Seq<Seq<u8>>,
)
    ensures
        after_inserts(db, file, a + b) == after_inserts(
            after_inserts(db, file, a).0,
            after_inserts(db, file, a).1,
            b,
        ),
    decreases b.len(),
{
    if b.len() == 0 {
        assert(a + b =~= a);
    } else {
        assert((a + b).drop_last() =~= a + b.drop_last());
        lemma_after_inserts_concat(db, file, a, b.drop_last());
    }
}

/// Later inserts never touch the pages before the current one.
pub proof fn lemma_prefix_kept(
    db: DatabaseView,
    file: Seq<u8>,
    prior: Seq<Seq<u8>>,
    rows: Seq<Seq<u8>>,
)
    requires
        db.wf(),
        db.stores(file, prior),
        db.page_index + rows.len() <= MAX_PAGES,
        forall|i: int| 0 <= i < rows.len() ==> fits(#[trigger] rows[i], db.slot_size),
    ensures
        after_inserts(db, file, rows).0.page_index >= db.page_index,
        after_inserts(db, file, rows).1.len() >= db.page_index * PAGE_SIZE,
        after_inserts(db, file, rows).1.subrange(0, db.page_index * PAGE_SIZE) == file.subrange(
            0,
            db.page_index * PAGE_SIZE,
        ),
    decreases rows.len(),
{
    if rows.len() > 0 {
        let init = rows.drop_last();
        assert forall|i: int| 0 <= i < init.len() implies fits(#[trigger] init[i], db.slot_size) by {
            assert(fits(rows[i], db.slot_size));
        }
        lemma_prefix_kept(db, file, prior, init);
        lemma_inserts_stored(db, file, prior, init);
        lemma_inserts_stored(db, file, prior, rows);
        let (d, f) = after_inserts(db, file, init);
        let off = (d.page_index * PAGE_SIZE) as nat;
        let img = page_image(d.current + slot_bytes(rows.last(), d.slot_size));
        let f2 = applied(f, off, img);
        let q = db.page_index * PAGE_SIZE;
        assert(f2.subrange(0, q) =~= f.subrange(0, q));
    }
}

/// Rows inserted into a fresh store fill whole pages of `rows_per_page`
/// rows in turn; the file holds one page per started page, so
/// `ceil(n / rows_per_page)` pages, and replays as exactly the rows.
pub proof fn lemma_fresh_inserts_pages(s: nat, rows: Seq<Seq<u8>>)
    requires
        valid_slot_size(s),
        rows.len() <= MAX_PAGES,
        forall|i: int| 0 <= i < rows.len() ==> fits(#[trigger] rows[i], s),
    ensures
        ({
            let (d, f) = after_inserts(fresh(s), seq![], rows);
            let full = d.page_index;
            let part = d.current_rows.len();
            &&& rows.len() == full * rows_per_page(s) + part
            &&& part < rows_per_page(s)
            &&& f.len() == if part == 0 {
                full * PAGE_SIZE
            } else {
                (full + 1) * PAGE_SIZE
            }
            &&& file_rows(f, s) == Ok::<_, DatabaseError>(rows)
        }),
{
    lemma_fresh_counts(s, rows);
}

/// Cutting the file of rows inserted into a fresh store after `j` pages
/// leaves exactly the first `j * rows_per_page` rows.
pub proof fn lemma_truncated_fresh_replay(s: nat, rows: Seq<Seq<u8>>, j: nat)
    requires
        valid_slot_size(s),
        rows.len() <= MAX_PAGES,
        forall|i: int| 0 <= i < rows.len() ==> fits(#[trigger] rows[i], s),
        j * rows_per_page(s) <= rows.len(),
    ensures
        ({
            let f = after_inserts(fresh(s), seq![], rows).1;
            &&& j * PAGE_SIZE <= f.len()
            &&& file_rows(f.subrange(0, j * PAGE_SIZE), s) == Ok::<_, DatabaseError>(
                rows.take((j * rows_per_page(s)) as int),
            )
        }),
{
    let kk = rows_per_page(s);
    let m = (j * kk) as int;
    let a = rows.take(m);
    let b = rows.skip(m);
    assert(a + b =~= rows);
    assert forall|i: int| 0 <= i < a.len() implies fits(#[trigger] a[i], s) by {
        assert(fits(rows[i], s));
    }
    assert forall|i: int| 0 <= i < b.len() implies fits(#[trigger] b[i], s) by {
        assert(fits(rows[i + m], s));
    }
    lemma_fresh_counts(s, a);
    lemma_after_inserts_concat(fresh(s), seq![], a, b);
    let (d1, f1) = after_inserts(fresh(s), seq![], a);
    lemma_after_insert_count_empty(s);
    let p1 = d1.page_index as int;
    let k1 = d1.current_rows.len() as int;
    assert(p1 == j && k1 == 0) by (nonlinear_arith)
        requires
            j * kk == p1 * kk + k1,
            0 <= k1 < kk,
            kk >= 1,
            p1 >= 0,
    ;
    assert(j <= m) by (nonlinear_arith)
        requires
            m == j * kk,
            kk >= 1,
    ;
    lemma_prefix_kept(d1, f1, a, b);
    assert(f1.subrange(0, j * PAGE_SIZE) =~= f1);
}

impl PageWrite {
    /// Performs the write on an in-memory copy of the file.
    pub fn apply(&self, file: &mut Vec<u8>)
        requires
            self.offset <= old(file)@.len(),
        ensures
            final(file)@ == applied(old(file)@, self.offset as nat, self.image@),
    {
        let flen = file.len();
        assert(self.offset <= flen);
        let off = self.offset as usize;
        let ghost orig = old(file)@;
        let n = self.image.len();
        let mut i: usize = 0;
        while i < n
            invariant
                off == self.offset,
                off <= orig.len(),
                n == self.image@.len(),
                i <= n,
                off <= file@.len(),
                file@ == applied(orig, off as nat, self.image@.subrange(0, i as int)),
            decreases n - i,
        {
            let ghost before = file@;
            if i < file.len() - off {
                file.set(off + i, self.image[i]);
            } else {
                file.push(self.image[i]);
            }
            i = i + 1;
            assert(file@ =~= applied(orig, off as nat, self.image@.subrange(0, i as int)));
        }
        assert(self.image@.subrange(0, n as int) =~= self.image@);
    }
}

impl Database {
    /// The state for a file of `file_len` bytes: new rows go into a fresh
    /// page after the pages already there.
    pub fn open(slot_size: usize, file_len: u64) -> (r: Result<Database, DatabaseError>)
        ensures
            r == Err::<Database, _>(DatabaseError::InvalidSlotSize) <==> !valid_slot_size(
                slot_size as nat,
            ),
            r == Err::<Database, _>(DatabaseError::InvalidPageSize) <==> valid_slot_size(
                slot_size as nat,
            ) && file_len % (PAGE_SIZE as u64) != 0,
            r == Err::<Database, _>(DatabaseError::Io) <==> valid_slot_size(slot_size as nat)
                && file_len % (PAGE_SIZE as u64) == 0 && file_len / (PAGE_SIZE as u64) > MAX_PAGES,
            r is Ok <==> valid_slot_size(slot_size as nat) && file_len % (PAGE_SIZE as u64) == 0
                && file_len / (PAGE_SIZE as u64) <= MAX_PAGES,
            r is Ok ==> r->Ok_0@ == (DatabaseView {
                slot_size: slot_size as nat,
                page_index: (file_len / (PAGE_SIZE as u64)) as nat,
                current: seq![],
                current_rows: seq![],
            }),
            r is Ok ==> r->Ok_0@.wf(),
    {
        if slot_size <= HEADER_SIZE || slot_size > PAGE_SIZE {
            return Err(DatabaseError::InvalidSlotSize);
        }
        if file_len % (PAGE_SIZE as u64) != 0 {
            return Err(DatabaseError::InvalidPageSize);
        }
        let pages = file_len / (PAGE_SIZE as u64);
        if pages > MAX_PAGES {
            return Err(DatabaseError::Io);
        }
        let db = Database { current: Page::new(slot_size), page_index: pages, current_rows: Ghost(Seq::empty()) };
        assert(db@.current =~= slots_image(Seq::<Seq<u8>>::empty(), slot_size as nat));
        Ok(db)
    }

    pub fn slot_size(&self) -> (r: usize)
        ensures
            r == self@.slot_size,
    {
        self.current.slot_size()
    }

    /// A copy of this state, to be advanced while the original is kept.
    pub fn duplicate(&self) -> (r: Database)
        ensures
            r@ == self@,
    {
        Database {
            current: self.current.duplicate(),
            page_index: self.page_index,
            current_rows: Ghost(self.current_rows@),
        }
    }

    /// Appends `row` to a copy of the current page and returns the next
    /// state with the write that makes the row durable: the whole page image,
    /// padded to the page size, at the page's offset. `self` is left as it
    /// is; the caller keeps the next state once the write has succeeded.
    /// Fails with `Io` once the file holds the most pages whose offsets fit
    /// in a `u64`.
    pub fn insert(&self, row: &[u8]) -> (r: Result<(Database, PageWrite), DatabaseError>)
        requires
            self@.wf(),
        ensures
            r is Ok <==> fits(row@, self@.slot_size) && self@.page_index < MAX_PAGES,
            r == Err::<(Database, PageWrite), _>(DatabaseError::EmptyRow) <==> row@.len() == 0,
            r == Err::<(Database, PageWrite), _>(DatabaseError::RowTooLarge) <==> row@.len() > 0
                && row@.len() + HEADER_SIZE > self@.slot_size,
            r == Err::<(Database, PageWrite), _>(DatabaseError::Io) <==> fits(row@, self@.slot_size)
                && self@.page_index == MAX_PAGES,
            r is Ok ==> {
                let (next, w) = r->Ok_0;
                &&& next@.wf()
                &&& next@ == self@.after_insert(row@)
                &&& w.offset == self@.page_index * PAGE_SIZE
                &&& w.image@ == page_image(self@.current + slot_bytes(row@, self@.slot_size))
            },
            r is Ok ==> forall|file: Seq<u8>, rows: Seq<Seq<u8>>|
                #[trigger] self@.stores(file, rows) ==> r->Ok_0.0@.stores(
                    applied(file, r->Ok_0.1.offset as nat, r->Ok_0.1.image@),
                    rows.push(row@),
                ),
    {
        let mut next = self.duplicate();
        match next.advance(row) {
            Ok(w) => Ok((next, w)),
            Err(e) => Err(e),
        }
    }

    fn advance(&mut self, row: &[u8]) -> (r: Result<PageWrite, DatabaseError>)
        requires
            old(self)@.wf(),
        ensures
            final(self)@.wf(),
            r is Ok <==> fits(row@, old(self)@.slot_size) && old(self)@.page_index < MAX_PAGES,
            r == Err::<PageWrite, _>(DatabaseError::EmptyRow) <==> row@.len() == 0,
            r == Err::<PageWrite, _>(DatabaseError::RowTooLarge) <==> row@.len() > 0
                && row@.len() + HEADER_SIZE > old(self)@.slot_size,
            r == Err::<PageWrite, _>(DatabaseError::Io) <==> fits(row@, old(self)@.slot_size)
                && old(self)@.page_index == MAX_PAGES,
            r is Err ==> final(self)@ == old(self)@,
            r is Ok ==> {
                &&& r->Ok_0.offset == old(self)@.page_index * PAGE_SIZE
                &&& r->Ok_0.image@ == page_image(
                    old(self)@.current + slot_bytes(row@, old(self)@.slot_size),
                )
                &&& final(self)@ == old(self)@.after_insert(row@)
            },
            r is Ok ==> forall|file: Seq<u8>, rows: Seq<Seq<u8>>|
                #[trigger] old(self)@.stores(file, rows) ==> final(self)@.stores(
                    applied(file, r->Ok_0.offset as nat, r->Ok_0.image@),
                    rows.push(row@),
                ),
    {
        let s = self.current.slot_size();
        if row.len() == 0 {
            return Err(DatabaseError::EmptyRow);
        }
        if row.len() > s - HEADER_SIZE {
            return Err(DatabaseError::RowTooLarge);
        }
        if self.page_index >= MAX_PAGES {
            return Err(DatabaseError::Io);
        }
        let ghost old_view = self@;
        proof {
            lemma_slots_image_len(self.current_rows@, s as nat);
            let x = (PAGE_SIZE - self.current@.bytes.len()) as nat;
            assert(x >= s ==> x / (s as nat) > 0) by (nonlinear_arith)
                requires s > 0;
        }
        let res = self.current.insert(row);
        proof {
            lemma_slot_bytes_len(row@, s as nat);
        }
        let bytes = self.current.as_bytes();
        let mut image: Vec<u8> = Vec::with_capacity(PAGE_SIZE);
        let mut i: usize = 0;
        while i < bytes.len()
            invariant
                i <= bytes@.len(),
                image@ == bytes@.subrange(0, i as int),
            decreases bytes@.len() - i,
        {
            image.push(bytes[i]);
            i = i + 1;
            assert(image@ =~= bytes@.subrange(0, i as int));
        }
        let len = bytes.len();
        while i < PAGE_SIZE
            invariant
                len == bytes@.len(),
                len <= i <= PAGE_SIZE,
                image@ == bytes@ + zeros((i - len) as nat),
            decreases PAGE_SIZE - i,
        {
            image.push(0u8);
            i = i + 1;
            assert(image@ =~= bytes@ + zeros((i - len) as nat));
        }
        let offset = self.page_index * (PAGE_SIZE as u64);
        if len + s > PAGE_SIZE {
            self.current = Page::new(s);
            self.page_index = self.page_index + 1;
            self.current_rows = Ghost(Seq::empty());
        } else {
            self.current_rows = Ghost(self.current_rows@.push(row@));
        }
        proof {
            lemma_slots_image_push(old_view.current_rows, row@, s as nat);
            assert forall|file: Seq<u8>, rows: Seq<Seq<u8>>|
                #[trigger] old_view.stores(file, rows) implies self@.stores(
                    applied(file, offset as nat, image@),
                    rows.push(row@),
                ) by {
                lemma_insert_stores(old_view, file, rows, row@);
            }
            lemma_after_insert_wf(old_view, row@);
        }
        Ok(PageWrite { offset, image })
    }

    /// Replays a file: every row of every page, in order. The file must be a
    /// whole number of pages.
    pub fn rows(&self, file: &[u8]) -> (r: Result<Vec<Vec<u8>>, DatabaseError>)
        requires
            self@.wf(),
        ensures
            file_rows(file@, self@.slot_size) is Ok <==> r is Ok,
            r is Ok ==> payloads(r->Ok_0@) == file_rows(file@, self@.slot_size)->Ok_0,
            r is Err ==> r->Err_0 == file_rows(file@, self@.slot_size)->Err_0,
    {
        let s = self.current.slot_size();
        if file.len() % PAGE_SIZE != 0 {
            return Err(DatabaseError::InvalidPageSize);
        }
        let ghost f = file@;
        let mut out: Vec<Vec<u8>> = Vec::new();
        let mut off: usize = 0;
        while PAGE_SIZE <= file.len() - off
            invariant
                f == file@,
                f.len() <= usize::MAX,
                f.len() % (PAGE_SIZE as nat) == 0,
                valid_slot_size(s as nat),
                s == self@.slot_size,
                off <= f.len(),
                pages_from(f, s as nat, 0) == join(
                    Ok(payloads(out@)),
                    pages_from(f, s as nat, off as nat),
                ),
            decreases f.len() - off,
        {
            let mut chunk: Vec<u8> = Vec::with_capacity(PAGE_SIZE);
            let mut i: usize = 0;
            while i < PAGE_SIZE
                invariant
                    f == file@,
                    f.len() <= usize::MAX,
                    off + PAGE_SIZE <= f.len(),
                    i <= PAGE_SIZE,
                    chunk@ == f.subrange(off as int, off + i),
                decreases PAGE_SIZE - i,
            {
                chunk.push(file[off + i]);
                i = i + 1;
                assert(chunk@ =~= f.subrange(off as int, off + i));
            }
            let ghost chunk_bytes = chunk@;
            let page = match Page::from_bytes(chunk, s) {
                Ok(p) => p,
                Err(e) => {
                    return Err(e);
                },
            };
            assert(page@.bytes == f.subrange(off as int, off + PAGE_SIZE));
            let mut found = match page.rows() {
                Ok(v) => v,
                Err(e) => {
                    assert(pages_from(f, s as nat, off as nat) == Err::<Seq<Seq<u8>>, _>(
                        DatabaseError::CorruptSlot,
                    ));
                    return Err(e);
                },
            };
            let ghost prev = payloads(out@);
            let ghost found_rows = payloads(found@);
            out.append(&mut found);
            proof {
                assert(payloads(out@) =~= prev + found_rows);
                match pages_from(f, s as nat, (off + PAGE_SIZE) as nat) {
                    Ok(rest) => {
                        assert(prev + (found_rows + rest) =~= payloads(out@) + rest);
                    },
                    Err(_) => {},
                }
            }
            off = off + PAGE_SIZE;
        }
        proof {
            assert(payloads(out@) + Seq::<Seq<u8>>::empty() =~= payloads(out@));
        }
        Ok(out)
    }
}

} // verus!
