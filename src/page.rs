use vstd::prelude::*;

use crate::error::DatabaseError;

verus! {

/// Size in bytes of every page, in memory and on disk.
pub const PAGE_SIZE: usize = 4096;

/// Size in bytes of the big-endian length prefix that opens each slot.
pub const HEADER_SIZE: usize = 8;

/// A slot must hold the prefix and at least one payload byte, and fit in a page.
pub open spec fn valid_slot_size(s: nat) -> bool {
    HEADER_SIZE < s <= PAGE_SIZE
}

/// A payload that a slot of size `s` can hold and that replay can find again.
pub open spec fn fits(row: Seq<u8>, s: nat) -> bool {
    0 < row.len() && row.len() + HEADER_SIZE <= s
}

/// The unsigned number that the bytes spell in big-endian order.
pub open spec fn be_value(b: Seq<u8>) -> nat
    decreases b.len(),
{
    if b.len() == 0 {
        0
    } else {
        be_value(b.drop_last()) * 256 + b.last() as nat
    }
}

pub open spec fn pow256(i: nat) -> nat
    decreases i,
{
    if i == 0 {
        1
    } else {
        256 * pow256((i - 1) as nat)
    }
}

/// The eight-byte big-endian prefix of a payload length; payloads are shorter
/// than a page, so the upper six bytes are zero.
pub open spec fn length_prefix(n: nat) -> Seq<u8> {
    seq![0u8, 0u8, 0u8, 0u8, 0u8, 0u8, (n / 256) as u8, (n % 256) as u8]
}

pub open spec fn zeros(n: nat) -> Seq<u8> {
    Seq::new(n, |i: int| 0u8)
}

/// One occupied slot: prefix, payload, zero padding up to the slot size.
pub open spec fn slot_bytes(row: Seq<u8>, s: nat) -> Seq<u8> {
    length_prefix(row.len()) + row + zeros((s - HEADER_SIZE - row.len()) as nat)
}

/// The slots of the given rows, one after the other.
pub open spec fn slots_image(rows: Seq<Seq<u8>>, s: nat) -> Seq<u8>
    decreases rows.len(),
{
    if rows.len() == 0 {
        seq![]
    } else {
        slot_bytes(rows[0], s) + slots_image(rows.drop_first(), s)
    }
}

/// The payloads found from byte `off` on: slot after slot, up to the first
/// zero prefix or the last whole slot; `None` where a prefix claims more
/// bytes than its slot holds.
pub open spec fn rows_from(data: Seq<u8>, s: nat, off: nat) -> Option<Seq<Seq<u8>>>
    decreases data.len() - off,
{
    if s <= HEADER_SIZE || off + s > data.len() {
        Some(seq![])
    } else {
        let n = be_value(data.subrange(off as int, off + HEADER_SIZE));
        if n == 0 {
            Some(seq![])
        } else if n + HEADER_SIZE > s {
            None
        } else {
            match rows_from(data, s, off + s) {
                Some(rest) => Some(
                    seq![data.subrange(off + HEADER_SIZE, off + HEADER_SIZE + n)] + rest,
                ),
                None => None,
            }
        }
    }
}

/// The payloads that a page holds.
pub open spec fn page_rows(data: Seq<u8>, s: nat) -> Option<Seq<Seq<u8>>> {
    rows_from(data, s, 0)
}

pub open spec fn payloads(v: Seq<Vec<u8>>) -> Seq<Seq<u8>> {
    v.map_values(|r: Vec<u8>| r@)
}

/// A page as bytes and the slot size that cuts it into slots.
pub ghost struct PageView {
    pub bytes: Seq<u8>,
    pub slot_size: nat,
}

/// A fixed-capacity buffer of equal-size row slots.
pub struct Page {
    data: Vec<u8>,
    slot_size: usize,
}

impl View for Page {
    type V = PageView;

    closed spec fn view(&self) -> PageView {
        PageView { bytes: self.data@, slot_size: self.slot_size as nat }
    }
}

impl PageView {
    pub open spec fn wf(self) -> bool {
        valid_slot_size(self.slot_size) && self.bytes.len() <= PAGE_SIZE
    }

    pub open spec fn available_rows(self) -> nat {
        ((PAGE_SIZE - self.bytes.len()) as nat) / self.slot_size
    }
}

pub proof fn lemma_be_step(b: Seq<u8>, i: int)
    requires
        0 <= i < b.len(),
    ensures
        be_value(b.subrange(0, i + 1)) == be_value(b.subrange(0, i)) * 256 + b[i] as nat,
{
    assert(b.subrange(0, i + 1).drop_last() =~= b.subrange(0, i));
}

pub proof fn lemma_be_prefix(n: nat)
    requires
        n < 65536,
    ensures
        be_value(length_prefix(n)) == n,
        length_prefix(n).len() == HEADER_SIZE,
{
    let b = length_prefix(n);
    assert(b.subrange(0, 0) =~= Seq::<u8>::empty());
    lemma_be_step(b, 0);
    lemma_be_step(b, 1);
    lemma_be_step(b, 2);
    lemma_be_step(b, 3);
    lemma_be_step(b, 4);
    lemma_be_step(b, 5);
    lemma_be_step(b, 6);
    lemma_be_step(b, 7);
    assert(b.subrange(0, 8) =~= b);
}

pub proof fn lemma_be_zeros(n: nat)
    ensures
        be_value(zeros(n)) == 0,
    decreases n,
{
    if n > 0 {
        assert(zeros(n).drop_last() =~= zeros((n - 1) as nat));
        lemma_be_zeros((n - 1) as nat);
    }
}

proof fn lemma_pow256_bound(i: nat)
    requires
        i <= 7,
    ensures
        0 < pow256(i) <= pow256(7),
        pow256(7) == 0x100000000000000,
    decreases 7 - i,
{
    reveal_with_fuel(pow256, 8);
    if i < 7 {
        lemma_pow256_bound(i + 1);
    }
}

pub proof fn lemma_slot_bytes_len(row: Seq<u8>, s: nat)
    requires
        row.len() + HEADER_SIZE <= s,
    ensures
        slot_bytes(row, s).len() == s,
{
}

pub proof fn lemma_slots_image_len(rows: Seq<Seq<u8>>, s: nat)
    requires
        forall|i: int| 0 <= i < rows.len() ==> fits(#[trigger] rows[i], s),
    ensures
        slots_image(rows, s).len() == rows.len() * s,
    decreases rows.len(),
{
    if rows.len() > 0 {
        lemma_slots_image_len(rows.drop_first(), s);
        assert(rows.len() * s == s + (rows.len() - 1) * s) by (nonlinear_arith);
    }
}

/// Appending one row to a sequence of slots appends its slot.
pub proof fn lemma_slots_image_push(rows: Seq<Seq<u8>>, row: Seq<u8>, s: nat)
    ensures
        slots_image(rows.push(row), s) == slots_image(rows, s) + slot_bytes(row, s),
    decreases rows.len(),
{
    if rows.len() == 0 {
        assert(rows.push(row).drop_first() =~= Seq::<Seq<u8>>::empty());
        assert(slots_image(rows.push(row).drop_first(), s) =~= Seq::<u8>::empty());
        assert(slots_image(rows.push(row), s) =~= slot_bytes(row, s));
        assert(slots_image(rows, s) =~= Seq::<u8>::empty());
    } else {
        assert(rows.push(row).drop_first() =~= rows.drop_first().push(row));
        lemma_slots_image_push(rows.drop_first(), row, s);
        assert(slots_image(rows.push(row), s) =~= slots_image(rows, s) + slot_bytes(row, s));
    }
}

/// Reading slots after a prefix of `pre.len()` bytes does not depend on the prefix.
pub proof fn lemma_rows_from_shift(pre: Seq<u8>, d: Seq<u8>, s: nat, off: nat)
    ensures
        rows_from(pre + d, s, pre.len() + off) == rows_from(d, s, off),
    decreases d.len() - off,
{
    let full = pre + d;
    let o = pre.len() + off;
    if !(s <= HEADER_SIZE || off + s > d.len()) {
        assert(full.subrange(o as int, o + HEADER_SIZE) =~= d.subrange(off as int, off + HEADER_SIZE));
        let n = be_value(d.subrange(off as int, off + HEADER_SIZE));
        if n != 0 && n + HEADER_SIZE <= s {
            assert(full.subrange(o + HEADER_SIZE, o + HEADER_SIZE + n) =~= d.subrange(
                off + HEADER_SIZE,
                off + HEADER_SIZE + n,
            ));
            lemma_rows_from_shift(pre, d, s, off + s);
            assert(pre.len() + (off + s) == o + s);
        }
    }
}

/// Slots written one after another, followed by zero bytes, read back as the
/// rows that were written, in order and byte for byte.
#[verifier::rlimit(40)]
pub proof fn lemma_slots_read_back(rows: Seq<Seq<u8>>, s: nat, tail: Seq<u8>)
    requires
        valid_slot_size(s),
        forall|i: int| 0 <= i < rows.len() ==> fits(#[trigger] rows[i], s),
        forall|i: int| 0 <= i < tail.len() ==> tail[i] == 0,
    ensures
        page_rows(slots_image(rows, s) + tail, s) == Some(rows),
    decreases rows.len(),
{
    let data = slots_image(rows, s) + tail;
    if rows.len() == 0 {
        assert(data =~= tail);
        if s <= data.len() {
            assert(data.subrange(0, HEADER_SIZE as int) =~= zeros(HEADER_SIZE as nat));
            lemma_be_zeros(HEADER_SIZE as nat);
        }
    } else {
        let row = rows[0];
        let slot = slot_bytes(row, s);
        let rest = slots_image(rows.drop_first(), s) + tail;
        assert forall|i: int| 0 <= i < rows.drop_first().len() implies fits(
            #[trigger] rows.drop_first()[i],
            s,
        ) by {
            assert(fits(rows[i + 1], s));
        }
        lemma_slots_read_back(rows.drop_first(), s, tail);
        assert(data =~= slot + rest);
        lemma_slot_bytes_len(row, s);
        lemma_rows_from_shift(slot, rest, s, 0);
        assert(rows_from(data, s, s) == rows_from(rest, s, 0));
        lemma_be_prefix(row.len());
        assert(data.subrange(0, HEADER_SIZE as int) =~= length_prefix(row.len()));
        assert(data.subrange(HEADER_SIZE as int, HEADER_SIZE + row.len()) =~= row);
        assert(seq![row] + rows.drop_first() =~= rows);
    }
}

/// Rows inserted one after another into a fresh page build the page's bytes
/// slot by slot, and reading the page back yields those rows in order, byte
/// for byte.
pub proof fn lemma_page_inserts_read_back(rows: Seq<Seq<u8>>, s: nat)
    requires
        valid_slot_size(s),
        forall|i: int| 0 <= i < rows.len() ==> fits(#[trigger] rows[i], s),
    ensures
        slots_image(rows.take(0), s) == Seq::<u8>::empty(),
        forall|k: int|
            0 <= k < rows.len() ==> #[trigger] slots_image(rows.take(k + 1), s) == slots_image(
                rows.take(k),
                s,
            ) + slot_bytes(rows[k], s),
        page_rows(slots_image(rows, s), s) == Some(rows),
{
    assert forall|k: int| 0 <= k < rows.len() implies #[trigger] slots_image(rows.take(k + 1), s)
        == slots_image(rows.take(k), s) + slot_bytes(rows[k], s) by {
        assert(rows.take(k + 1) =~= rows.take(k).push(rows[k]));
        lemma_slots_image_push(rows.take(k), rows[k], s);
    }
    lemma_slots_read_back(rows, s, Seq::<u8>::empty());
    assert(slots_image(rows, s) + Seq::<u8>::empty() =~= slots_image(rows, s));
}

impl Page {
    /// An empty page with the given slot size.
    pub fn new(slot_size: usize) -> (r: Page)
        requires
            valid_slot_size(slot_size as nat),
        ensures
            r@.bytes == Seq::<u8>::empty(),
            r@.slot_size == slot_size,
            r@.wf(),
    {
        Page { data: Vec::with_capacity(PAGE_SIZE), slot_size }
    }

    /// Wraps a buffer read from storage; it must be exactly one page long.
    pub fn from_bytes(data: Vec<u8>, slot_size: usize) -> (r: Result<Page, DatabaseError>)
        requires
            valid_slot_size(slot_size as nat),
        ensures
            data@.len() == PAGE_SIZE <==> r is Ok,
            r is Ok ==> r->Ok_0@ == (PageView { bytes: data@, slot_size: slot_size as nat }),
            r is Err ==> r->Err_0 == DatabaseError::InvalidPageSize,
    {
        if data.len() != PAGE_SIZE {
            return Err(DatabaseError::InvalidPageSize);
        }
        Ok(Page { data, slot_size })
    }

    pub fn slot_size(&self) -> (r: usize)
        ensures
            r == self@.slot_size,
    {
        self.slot_size
    }

    /// A copy of this page.
    pub fn duplicate(&self) -> (r: Page)
        ensures
            r@ == self@,
    {
        let mut data: Vec<u8> = Vec::with_capacity(self.data.len());
        let mut i: usize = 0;
        while i < self.data.len()
            invariant
                i <= self.data@.len(),
                data@ == self.data@.subrange(0, i as int),
            decreases self.data@.len() - i,
        {
            data.push(self.data[i]);
            i = i + 1;
            assert(data@ =~= self.data@.subrange(0, i as int));
        }
        assert(data@ =~= self.data@);
        Page { data, slot_size: self.slot_size }
    }

    /// The page's bytes.
    pub fn as_bytes(&self) -> (r: &[u8])
        ensures
            r@ == self@.bytes,
    {
        self.data.as_slice()
    }

    /// Appends `row` in one slot: its length as an eight-byte big-endian
    /// prefix, the row, and zero padding to the slot size. An empty row is
    /// refused: its zero prefix would read as the end of the page.
    pub fn insert(&mut self, row: &[u8]) -> (r: Result<(), DatabaseError>)
        requires
            old(self)@.wf(),
        ensures
            final(self)@.wf(),
            r == Err::<(), _>(DatabaseError::EmptyRow) <==> row@.len() == 0,
            r == Err::<(), _>(DatabaseError::RowTooLarge) <==> row@.len() > 0 && row@.len()
                + HEADER_SIZE > old(self)@.slot_size,
            r == Err::<(), _>(DatabaseError::PageFull) <==> fits(row@, old(self)@.slot_size)
                && old(self)@.available_rows() == 0,
            r is Ok <==> fits(row@, old(self)@.slot_size) && old(self)@.available_rows() > 0,
            r is Ok ==> final(self)@ == (PageView {
                bytes: old(self)@.bytes + slot_bytes(row@, old(self)@.slot_size),
                slot_size: old(self)@.slot_size,
            }),
            r is Err ==> final(self)@ == old(self)@,
    {
        let s = self.slot_size;
        let n = row.len();
        if n == 0 {
            return Err(DatabaseError::EmptyRow);
        }
        if n > s - HEADER_SIZE {
            return Err(DatabaseError::RowTooLarge);
        }
        let len = self.data.len();
        proof {
            let x = (PAGE_SIZE - len) as nat;
            assert(x < s <==> x / (s as nat) == 0) by (nonlinear_arith)
                requires s > 0;
        }
        if PAGE_SIZE - len < s {
            return Err(DatabaseError::PageFull);
        }
        let ghost before = self.data@;
        let mut k: usize = 0;
        while k < 6
            invariant
                k <= 6,
                self.slot_size == s,
                self.data@ == before + zeros(k as nat),
            decreases 6 - k,
        {
            self.data.push(0u8);
            k = k + 1;
            assert(self.data@ =~= before + zeros(k as nat));
        }
        self.data.push((n / 256) as u8);
        self.data.push((n % 256) as u8);
        assert(self.data@ =~= before + length_prefix(n as nat));
        let ghost with_prefix = self.data@;
        let mut i: usize = 0;
        while i < n
            invariant
                i <= n,
                n == row@.len(),
                self.slot_size == s,
                self.data@ == with_prefix + row@.subrange(0, i as int),
            decreases n - i,
        {
            self.data.push(row[i]);
            i = i + 1;
            assert(self.data@ =~= with_prefix + row@.subrange(0, i as int));
        }
        assert(row@.subrange(0, n as int) =~= row@);
        let ghost with_row = self.data@;
        let pad = s - HEADER_SIZE - n;
        let mut j: usize = 0;
        while j < pad
            invariant
                j <= pad,
                self.slot_size == s,
                self.data@ == with_row + zeros(j as nat),
            decreases pad - j,
        {
            self.data.push(0u8);
            j = j + 1;
            assert(self.data@ =~= with_row + zeros(j as nat));
        }
        assert(self.data@ =~= before + slot_bytes(row@, s as nat));
        Ok(())
    }

    /// The payload of every occupied slot, in slot order, up to the first
    /// zero prefix or the end of the buffer.
    pub fn rows(&self) -> (r: Result<Vec<Vec<u8>>, DatabaseError>)
        requires
            self@.wf(),
        ensures
            page_rows(self@.bytes, self@.slot_size) is Some <==> r is Ok,
            r is Ok ==> payloads(r->Ok_0@) == page_rows(self@.bytes, self@.slot_size)->0,
            r is Err ==> r->Err_0 == DatabaseError::CorruptSlot,
    {
        let s = self.slot_size;
        let ghost data = self.data@;
        let mut out: Vec<Vec<u8>> = Vec::new();
        let mut off: usize = 0;
        while off + s <= self.data.len()
            invariant
                s == self@.slot_size,
                data == self.data@,
                self@.wf(),
                off <= data.len(),
                rows_from(data, s as nat, 0) == match rows_from(data, s as nat, off as nat) {
                    Some(rest) => Some(payloads(out@) + rest),
                    None => None::<Seq<Seq<u8>>>,
                },
            ensures
                off <= data.len(),
                rows_from(data, s as nat, off as nat) == Some(Seq::<Seq<u8>>::empty()),
                rows_from(data, s as nat, 0) == Some(payloads(out@) + Seq::<Seq<u8>>::empty()),
            decreases data.len() - off,
        {
            let mut v: u64 = 0;
            let mut i: usize = 0;
            while i < HEADER_SIZE
                invariant
                    i <= HEADER_SIZE,
                    off + s <= data.len(),
                    s > HEADER_SIZE,
                    data == self.data@,
                    self@.wf(),
                    v as nat == be_value(data.subrange(off as int, off + i)),
                    (v as nat) < pow256(i as nat),
                decreases HEADER_SIZE - i,
            {
                let ghost hb = data.subrange(off as int, off + HEADER_SIZE);
                proof {
                    lemma_pow256_bound(i as nat);
                    assert(hb.subrange(0, i as int) =~= data.subrange(off as int, off + i));
                    assert(hb.subrange(0, i + 1) =~= data.subrange(off as int, off + i + 1));
                    lemma_be_step(hb, i as int);
                    let p = pow256(i as nat);
                    let b = data[off + i] as nat;
                    assert((v as nat) * 256 + b < p * 256) by (nonlinear_arith)
                        requires (v as nat) < p, b < 256;
                }
                v = v * 256 + self.data[off + i] as u64;
                i = i + 1;
            }
            let n = v;
            if n == 0 {
                break;
            }
            if n > (s - HEADER_SIZE) as u64 {
                return Err(DatabaseError::CorruptSlot);
            }
            let n = n as usize;
            let mut row: Vec<u8> = Vec::with_capacity(n);
            let mut j: usize = 0;
            while j < n
                invariant
                    j <= n,
                    off + HEADER_SIZE + n <= data.len(),
                    data == self.data@,
                    self@.wf(),
                    row@ == data.subrange(off + HEADER_SIZE, off + HEADER_SIZE + j),
                decreases n - j,
            {
                row.push(self.data[off + HEADER_SIZE + j]);
                j = j + 1;
                assert(row@ =~= data.subrange(off + HEADER_SIZE, off + HEADER_SIZE + j));
            }
            let ghost prev = out@;
            out.push(row);
            proof {
                assert(payloads(out@) =~= payloads(prev).push(row@));
                match rows_from(data, s as nat, (off + s) as nat) {
                    Some(rest) => {
                        assert(payloads(prev) + (seq![row@] + rest) =~= payloads(out@) + rest);
                    },
                    None => {},
                }
            }
            off = off + s;
        }
        assert(payloads(out@) + Seq::<Seq<u8>>::empty() =~= payloads(out@));
        Ok(out)
    }

    /// The number of bytes the page holds.
    pub fn len(&self) -> (r: usize)
        ensures
            r == self@.bytes.len(),
    {
        self.data.len()
    }

    /// How many more slots fit in the page.
    pub fn available_rows(&self) -> (r: usize)
        requires
            self@.wf(),
        ensures
            r == self@.available_rows(),
    {
        (PAGE_SIZE - self.data.len()) / self.slot_size
    }
}

} // verus!
