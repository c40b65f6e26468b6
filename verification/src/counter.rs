//! The counter entity: a single signed integer with `new`, `get`, `set`
//! and `increment`.

use vstd::prelude::*;

verus! {

/// The shared counter: one signed integer, starting at zero.
#[derive(Clone, Copy, Debug, PartialEq, Eq, Structural)]
pub struct Counter {
    pub number: i32,
}

impl Counter {
    /// A fresh counter holds zero.
    pub fn new() -> (c: Counter)
        ensures
            c.number == 0,
    {
        Counter { number: 0 }
    }

    /// The current value. Pure: nothing changes.
    pub fn get(&self) -> (n: i32)
        ensures
            n == self.number,
    {
        self.number
    }

    /// Overwrite the value unconditionally; the old value is gone.
    pub fn set(&mut self, number: i32)
        ensures
            final(self).number == number,
    {
        self.number = number;
    }

    /// Add one. The caller keeps the value below `i32::MAX`, so the
    /// addition cannot overflow.
    pub fn increment(&mut self)
        requires
            old(self).number < i32::MAX,
        ensures
            final(self).number == old(self).number + 1,
    {
        self.number = self.number + 1;
    }
}

/// The value after `k` steps that each add one, which is what
/// `increment`'s contract says a call does.
pub open spec fn value_after_increments(v: int, k: nat) -> int
    decreases k,
{
    if k == 0 {
        v
    } else {
        value_after_increments(v, (k - 1) as nat) + 1
    }
}

/// Law: `increment` applied `k` times to a counter holding `v` yields
/// `v + k`.
pub proof fn lemma_increments_add(v: int, k: nat)
    ensures
        value_after_increments(v, k) == v + k,
    decreases k,
{
    if k > 0 {
        lemma_increments_add(v, (k - 1) as nat);
    }
}

/// The counter after a sequence of `set` calls, applied first to last:
/// each call replaces the value, as `set`'s contract says.
pub open spec fn after_sets(c: Counter, vs: Seq<i32>) -> Counter
    decreases vs.len(),
{
    if vs.len() == 0 {
        c
    } else {
        after_sets(Counter { number: vs[0] }, vs.drop_first())
    }
}

/// Law: after any non-empty sequence of `set` calls, the counter holds
/// the last value set, whatever it held before.
pub proof fn lemma_last_set_wins(c: Counter, vs: Seq<i32>)
    requires
        vs.len() > 0,
    ensures
        after_sets(c, vs).number == vs.last(),
    decreases vs.len(),
{
    if vs.len() == 1 {
        assert(after_sets(c, vs) == after_sets(Counter { number: vs[0] }, vs.drop_first()));
        assert(vs.drop_first().len() == 0);
        assert(after_sets(c, vs).number == vs[0]);
    } else {
        lemma_last_set_wins(Counter { number: vs[0] }, vs.drop_first());
        assert(vs.drop_first().last() == vs.last());
    }
}

} // verus!
