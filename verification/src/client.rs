//! The client's decision logic. The HTTP transport itself lives with
//! the caller: it hands bytes and status codes in, and this module says
//! what they mean.

use vstd::prelude::*;

verus! {

/// Whether an HTTP status code reports success: the 2xx range, which is
/// what `set_counter` answers with after a `PUT /counter`.
pub fn is_success(status: u16) -> (r: bool)
    ensures
        r == (200 <= status < 300),
{
    200 <= status && status < 300
}

} // verus!
