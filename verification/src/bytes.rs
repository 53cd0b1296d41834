//! Byte buffer helpers.
use vstd::prelude::*;

verus! {

/// Appends a slice to a buffer.
pub(crate) fn append_bytes(out: &mut Vec<u8>, part: &[u8])
    ensures
        final(out)@ == old(out)@ + part@,
{
    out.extend_from_slice(part);
    assert(out@ =~= old(out)@ + part@);
}

} // verus!
