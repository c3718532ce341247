use vstd::prelude::*;

verus! {

/// The error type of bitcode's serde functions.
#[verifier::external_type_specification]
#[verifier::external_body]
pub struct ExBitcodeError(bitcode::Error);

/// What `bitcode::deserialize` makes of the bytes, read as a ledger row
/// (balance after, amount, debit flag, description, creation time);
/// `None` where it fails.
pub uninterp spec fn decoded_row(bytes: Seq<u8>) -> Option<(i64, i64, bool, Seq<char>, i128)>;

/// What `bitcode::serialize` makes of a ledger row tuple (balance after,
/// amount, debit flag, description, creation time).
pub uninterp spec fn encoded_row(
    balance: i64,
    value: i64,
    debit: bool,
    description: Seq<char>,
    created_at: i128,
) -> Seq<u8>;

/// Relies on `bitcode::serialize` of a tuple of integers, a `bool` and a
/// string, which has none of the shapes it refuses (enums of more than 256
/// variants, skipped fields), so it succeeds; `bitcode::deserialize` turns
/// its output back into the same tuple (the round trip that bitcode tests
/// for its serde functions).
#[verifier::external_body]
pub(crate) fn encode_row(
    balance: i64,
    value: i64,
    debit: bool,
    description: &str,
    created_at: i128,
) -> (r: Result<Vec<u8>, bitcode::Error>)
    ensures
        r is Ok,
        r->Ok_0@ == encoded_row(balance, value, debit, description@, created_at),
        decoded_row(r->Ok_0@) == Some((balance, value, debit, description@, created_at)),
{
    bitcode::serialize(&(balance, value, debit, description, created_at))
}

/// Relies on `bitcode::deserialize` of a ledger row tuple.
#[verifier::external_body]
pub(crate) fn decode_row(bytes: &[u8]) -> (r: Result<(i64, i64, bool, String, i128), bitcode::Error>)
    ensures
        r is Ok <==> decoded_row(bytes@) is Some,
        r is Ok ==> decoded_row(bytes@) == Some(
            (r->Ok_0.0, r->Ok_0.1, r->Ok_0.2, r->Ok_0.3@, r->Ok_0.4),
        ),
{
    bitcode::deserialize::<(i64, i64, bool, String, i128)>(bytes)
}

} // verus!
