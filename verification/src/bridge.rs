//! The polling bridge's decision logic. The bridge itself is two loops
//! around the client — fetch and republish, receive and forward — and
//! every decision either loop takes is a function here; the sleeping,
//! the transport and the UI channel live with the caller.

use vstd::prelude::*;

use crate::counter::Counter;

verus! {

/// One poll-loop step: what to publish to the UI for one fetch outcome.
/// A fetched counter is published as its value; a failed fetch
/// publishes nothing, and the loop goes on.
pub fn poll_publish(fetched: Option<Counter>) -> (r: Option<i32>)
    ensures
        match fetched {
            Some(c) => r == Some(c.number),
            None => r is None,
        },
{
    match fetched {
        Some(c) => Some(c.get()),
        None => None,
    }
}

/// One set-receiver step: the counter to forward for a UI event that
/// asks for `value`.
pub fn counter_for_set_event(value: i32) -> (c: Counter)
    ensures
        c.number == value,
{
    let mut c = Counter::new();
    c.set(value);
    c
}

} // verus!
