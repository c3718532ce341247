use vstd::prelude::*;

verus! {

/// What can go wrong in the storage layer.
#[derive(Debug, Clone, Copy, PartialEq, Eq, Structural)]
pub enum DatabaseError {
    /// The file could not be opened, read, written or positioned.
    Io,
    /// A row could not be encoded, or a stored payload could not be decoded.
    Serialize,
    /// The row's payload and its length prefix do not fit in one slot.
    RowTooLarge,
    /// A buffer or a file is not a whole number of pages.
    InvalidPageSize,
    /// The slot size leaves no room for a payload or exceeds one page.
    InvalidSlotSize,
    /// The page has no free slot left.
    PageFull,
    /// An empty payload cannot be told apart from the end-of-page marker.
    EmptyRow,
    /// A slot announces a payload longer than the slot can hold.
    CorruptSlot,
}

} // verus!
