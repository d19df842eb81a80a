//! Log sequence numbers and the clock that hands them out.
use vstd::prelude::*;

verus! {

/// A log sequence number.
#[derive(Clone, Copy, Debug, PartialEq, PartialOrd, Eq, Hash, Structural)]
pub struct LsnId(pub u64);

/// The one source of every ordered number of a database: log sequence numbers,
/// transactions' numbers and commit times.
#[derive(Clone, Copy, Debug)]
pub struct LsnClock {
    /// The next number to hand out.
    pub counter: u64,
    /// Every record with a number up to this one is durable.
    pub last_written: u64,
}

/// The larger of two numbers.
pub open spec fn larger(a: u64, b: u64) -> u64 {
    if a < b {
        b
    } else {
        a
    }
}

impl Default for LsnClock {
    fn default() -> (c: LsnClock)
        ensures
            c.counter == 1,
            c.last_written == 0,
    {
        LsnClock { counter: 1, last_written: 0 }
    }
}

impl LsnClock {
    /// Hands out the next number.
    pub fn next_lsn(&mut self) -> (lsn: LsnId)
        requires
            old(self).counter < u64::MAX,
        ensures
            lsn.0 == old(self).counter,
            *final(self) == (LsnClock { counter: (old(self).counter + 1) as u64, ..*old(self) }),
    {
        let lsn = LsnId(self.counter);
        self.counter = self.counter + 1;
        lsn
    }

    /// The number that comes next.
    pub fn next_value(&self) -> (n: u64)
        ensures
            n == self.counter,
    {
        self.counter
    }

    /// Up to which number everything is durable.
    pub fn last_written(&self) -> (lsn: LsnId)
        ensures
            lsn.0 == self.last_written,
    {
        LsnId(self.last_written)
    }

    /// Everything up to `lsn` is durable now; the mark never goes back.
    pub fn mark_written(&mut self, lsn: LsnId)
        ensures
            *final(self) == (LsnClock {
                last_written: larger(old(self).last_written, lsn.0),
                ..*old(self)
            }),
    {
        if self.last_written < lsn.0 {
            self.last_written = lsn.0;
        }
    }

    /// Is `lsn` durable?
    pub fn is_durable(&self, lsn: LsnId) -> (r: bool)
        ensures
            r == (lsn.0 <= self.last_written),
    {
        self.last_written >= lsn.0
    }

    /// From now on every number handed out is above `lsn`.
    pub fn advance_counter_past(&mut self, lsn: LsnId)
        requires
            lsn.0 < u64::MAX,
        ensures
            *final(self) == (LsnClock {
                counter: larger(old(self).counter, (lsn.0 + 1) as u64),
                ..*old(self)
            }),
    {
        if self.counter < lsn.0 + 1 {
            self.counter = lsn.0 + 1;
        }
    }

    /// Starts from a persisted floor: nothing below `next` can still be in
    /// flight, so it is the next number and all below it are durable.
    pub fn seed(&mut self, next: u64)
        ensures
            final(self).counter == larger(old(self).counter, larger(next, 1)),
            final(self).last_written == larger(
                old(self).last_written,
                (larger(next, 1) - 1) as u64,
            ),
    {
        let next: u64 = if next < 1 {
            1
        } else {
            next
        };
        if self.counter < next {
            self.counter = next;
        }
        self.mark_written(LsnId(next - 1));
    }
}

} // verus!
