//! A predicate that lets an iteration run a given number of steps past the
//! point where its own condition first fails.
use vstd::prelude::*;

verus! {

/// Counts down the extra steps still allowed.
#[derive(Copy, Clone, Debug)]
pub struct Extra {
    pub remaining: usize,
}

/// A predicate that holds while its argument holds and then for `n` more calls.
pub fn extra(n: usize) -> (r: Extra)
    ensures
        r.remaining == n,
{
    Extra { remaining: n }
}

impl Extra {
    /// True while extra steps remain; each call with a false condition uses one.
    pub fn call(&mut self, cond: bool) -> (r: bool)
        ensures
            r == (old(self).remaining != 0),
            final(self).remaining == if old(self).remaining != 0 && !cond {
                (old(self).remaining - 1) as usize
            } else {
                old(self).remaining
            },
    {
        if self.remaining != 0 {
            if !cond {
                self.remaining = self.remaining - 1;
            }
            true
        } else {
            false
        }
    }
}

/// Extends a condition with the extra steps of an `Extra`.
pub trait AndExtra: Sized {
    /// Whether the condition holds.
    spec fn truth(&self) -> bool;

    /// True while extra steps remain; a false condition uses one.
    fn and_extra(self, one: &mut Extra) -> (r: bool)
        ensures
            r == (old(one).remaining != 0),
            final(one).remaining == if old(one).remaining != 0 && !self.truth() {
                (old(one).remaining - 1) as usize
            } else {
                old(one).remaining
            },
    ;
}

impl AndExtra for bool {
    open spec fn truth(&self) -> bool {
        *self
    }

    fn and_extra(self, one: &mut Extra) -> (r: bool) {
        one.call(self)
    }
}

} // verus!
