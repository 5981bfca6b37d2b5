//! The response to an insert.

use vstd::prelude::*;

use crate::execution::InsertionResult;
use crate::wire_protocol::WireError;
use crate::wire_protocol::query::ByteReader;

verus! {

/// The response to an insert: the kind byte 2, then 1 for success and 0 for failure.
pub open spec fn insert_bytes(result: InsertionResult) -> Seq<u8> {
    seq![2u8, if result.success { 1u8 } else { 0u8 }]
}

/// Appends the response to an insert to `out`.
pub fn build_insert_result(result: &InsertionResult, out: &mut Vec<u8>)
    ensures
        final(out)@ == old(out)@ + insert_bytes(*result),
{
    out.push(2);
    out.push(if result.success { 1 } else { 0 });
    assert(out@ =~= old(out)@ + insert_bytes(*result));
}

/// Reads the payload of the response to an insert: one byte, 1 for success.
pub fn parse_insert_result(buffer: &mut ByteReader) -> (r: Result<InsertionResult, WireError>)
    ensures
        final(buffer).buffer == old(buffer).buffer,
        match r {
            Ok(result) => old(buffer).position < old(buffer).buffer@.len() && result.success == (
            old(buffer).buffer@[old(buffer).position as int] == 1) && final(buffer).position
                == old(buffer).position + 1,
            Err(e) => e == WireError::Truncated && old(buffer).position >= old(buffer).buffer@.len()
                && final(buffer).position == old(buffer).position,
        },
{
    match buffer.read_u8() {
        Some(byte) => Ok(InsertionResult { success: byte == 1 }),
        None => Err(WireError::Truncated),
    }
}

} // verus!
