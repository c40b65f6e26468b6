//! The HTTP service's handler logic: one shared counter, read over
//! `GET /counter` (reply, then advance), written over `PUT /counter`,
//! and a fixed greeting on `GET /`. Handlers speak status codes and
//! body bytes; the socket, the routing and the lock around the state
//! live with the caller.

use vstd::prelude::*;

use crate::codec::ParseError;
use crate::codec::counter_from_json;
use crate::codec::counter_json;
use crate::codec::counter_to_json;
use crate::codec::error_body;
use crate::codec::error_json;
use crate::codec::parse_counter_json;
use crate::counter::Counter;
use crate::counter::lemma_increments_add;
use crate::counter::value_after_increments;

verus! {

/// The canonical service state: the one counter that every request
/// handler reads and writes in turn.
pub struct Service {
    pub counter: Counter,
}

/// The error message for a body that does not spell a counter:
/// `invalid counter body`.
pub open spec fn invalid_body_message() -> Seq<u8> {
    seq![
        105u8,
        110u8,
        118u8,
        97u8,
        108u8,
        105u8,
        100u8,
        32u8,
        99u8,
        111u8,
        117u8,
        110u8,
        116u8,
        101u8,
        114u8,
        32u8,
        98u8,
        111u8,
        100u8,
        121u8,
    ]
}

/// The error message for a well-formed body whose integer does not fit:
/// `counter out of range`.
pub open spec fn out_of_range_message() -> Seq<u8> {
    seq![
        99u8,
        111u8,
        117u8,
        110u8,
        116u8,
        101u8,
        114u8,
        32u8,
        111u8,
        117u8,
        116u8,
        32u8,
        111u8,
        102u8,
        32u8,
        114u8,
        97u8,
        110u8,
        103u8,
        101u8,
    ]
}

fn invalid_body_response() -> (out: Vec<u8>)
    ensures
        out@ == error_json(invalid_body_message()),
{
    let mut msg: Vec<u8> = Vec::new();
    msg.push(105);
    msg.push(110);
    msg.push(118);
    msg.push(97);
    msg.push(108);
    msg.push(105);
    msg.push(100);
    msg.push(32);
    msg.push(99);
    msg.push(111);
    msg.push(117);
    msg.push(110);
    msg.push(116);
    msg.push(101);
    msg.push(114);
    msg.push(32);
    msg.push(98);
    msg.push(111);
    msg.push(100);
    msg.push(121);
    proof {
        assert(msg@ =~= invalid_body_message());
    }
    error_body(&msg)
}

fn out_of_range_response() -> (out: Vec<u8>)
    ensures
        out@ == error_json(out_of_range_message()),
{
    let mut msg: Vec<u8> = Vec::new();
    msg.push(99);
    msg.push(111);
    msg.push(117);
    msg.push(110);
    msg.push(116);
    msg.push(101);
    msg.push(114);
    msg.push(32);
    msg.push(111);
    msg.push(117);
    msg.push(116);
    msg.push(32);
    msg.push(111);
    msg.push(102);
    msg.push(32);
    msg.push(114);
    msg.push(97);
    msg.push(110);
    msg.push(103);
    msg.push(101);
    proof {
        assert(msg@ =~= out_of_range_message());
    }
    error_body(&msg)
}

impl Service {
    /// A fresh service starts with the counter at zero.
    pub fn new() -> (s: Service)
        ensures
            s.counter.number == 0,
    {
        Service { counter: Counter::new() }
    }

    /// `GET /counter`: reply 200 with the current counter serialized,
    /// then advance the stored counter, so the next reader sees one
    /// more. The caller keeps the stored value below `i32::MAX`.
    pub fn get_counter(&mut self) -> (r: (u16, Vec<u8>))
        requires
            old(self).counter.number < i32::MAX,
        ensures
            r.0 == 200,
            r.1@ == counter_json(old(self).counter.number as int),
            final(self).counter.number == old(self).counter.number + 1,
    {
        let body = counter_to_json(&self.counter);
        self.counter.increment();
        (200, body)
    }

    /// `PUT /counter`: parse the body. A body that spells a counter
    /// overwrites the stored value, reply 204 with no body. Any other
    /// body leaves the counter alone and replies 400 with a JSON error
    /// body saying whether the bytes were malformed or the integer too
    /// large.
    pub fn set_counter(&mut self, body: &Vec<u8>) -> (r: (u16, Vec<u8>))
        ensures
            match parse_counter_json(body@) {
                Some(v) => {
                    &&& (i32::MIN <= v <= i32::MAX ==> r.0 == 204 && r.1@ == Seq::<u8>::empty()
                        && final(self).counter.number == v)
                    &&& (!(i32::MIN <= v <= i32::MAX) ==> r.0 == 400 && r.1@ == error_json(
                        out_of_range_message(),
                    ) && *final(self) == *old(self))
                },
                None => r.0 == 400 && r.1@ == error_json(invalid_body_message()) && *final(self)
                    == *old(self),
            },
    {
        match counter_from_json(body) {
            Ok(new_counter) => {
                self.counter.set(new_counter.get());
                let empty: Vec<u8> = Vec::new();
                proof {
                    assert(empty@ =~= Seq::<u8>::empty());
                }
                (204, empty)
            },
            Err(ParseError::Malformed) => (400, invalid_body_response()),
            Err(ParseError::OutOfRange) => (400, out_of_range_response()),
        }
    }
}

/// `GET /`: status 200 and the fixed greeting, whatever the counter
/// holds or held.
pub fn hello() -> (r: (u16, &'static str))
    ensures
        r.0 == 200,
        r.1@ == "Hello, world!"@,
{
    (200, "Hello, world!")
}

/// Any internal service failure becomes status 500 with the JSON error
/// body `{"error":"<msg>"}` naming it.
pub fn error_response(msg: &Vec<u8>) -> (r: (u16, Vec<u8>))
    ensures
        r.0 == 500,
        r.1@ == error_json(msg@),
{
    (500, error_body(msg))
}

/// The value the k-th `GET /counter` call (0-indexed) replies with when
/// the stored value was `start` before the first of them: each call
/// replies with the state it finds and leaves it one higher, as
/// `get_counter`'s contract states.
pub open spec fn get_reply(start: int, k: nat) -> int {
    value_after_increments(start, k)
}

/// Law: from a fresh service, the n-th `GET /counter` call (0-indexed)
/// replies with n.
pub proof fn lemma_nth_get_reply(n: nat)
    ensures
        get_reply(0, n) == n,
{
    lemma_increments_add(0, n);
}

/// Law: once `PUT /counter` stores v, the following `GET /counter`
/// replies count up from there: the k-th later reply is v + k — v for
/// the first, v + 1 for the next, and so on.
pub proof fn lemma_get_after_set(v: int, k: nat)
    ensures
        get_reply(v, k) == v + k,
{
    lemma_increments_add(v, k);
}

/// Law: n sequential `GET /counter` replies from a fresh service hold
/// no duplicate and skip no value: as a set they are exactly the values
/// from 0 through n - 1.
pub proof fn lemma_replies_distinct_and_complete(n: nat)
    ensures
        forall|i: nat, j: nat|
            i < n && j < n && i != j ==> #[trigger] get_reply(0, i) != #[trigger] get_reply(0, j),
        Set::new(|v: int| exists|k: nat| k < n && #[trigger] get_reply(0, k) == v) =~= Set::new(
            |v: int| 0 <= v < n,
        ),
{
    assert forall|k: nat| #[trigger] get_reply(0, k) == k by {
        lemma_increments_add(0, k);
    };
    let covered = Set::new(|v: int| exists|k: nat| k < n && #[trigger] get_reply(0, k) == v);
    assert forall|v: int| covered.contains(v) <==> 0 <= v < n by {
        if 0 <= v < n {
            assert(get_reply(0, v as nat) == v);
        }
    };
    assert(covered =~= Set::new(|v: int| 0 <= v < n));
}

} // verus!
