//! Bookkeeping of the adaptive anomaly thresholds.
//!
//! A threshold remembers whether each of its recent samples was flagged as
//! an anomaly. Once that history is full, the threshold is reconsidered on
//! every tenth sample from the rate of flagged samples.
use vstd::prelude::*;
use crate::window::{SlidingWindow, count_true};

verus! {

/// The recent anomaly flags of a threshold.
pub struct AnomalyHistory {
    flags: SlidingWindow<bool>,
}

impl AnomalyHistory {
    /// The recent flags, oldest first, and how many were recorded in all.
    pub closed spec fn flags(&self) -> Seq<bool> {
        self.flags@.items
    }

    pub closed spec fn recorded(&self) -> nat {
        self.flags@.pushed
    }

    pub closed spec fn capacity(&self) -> nat {
        self.flags@.capacity
    }

    pub closed spec fn wf(&self) -> bool {
        self.flags.wf()
    }

    /// The history keeps the `min(recorded, capacity)` last flags.
    pub proof fn lemma_len(&self)
        requires
            self.wf(),
        ensures
            self.capacity() > 0,
            self.flags().len() == if self.recorded() < self.capacity() {
                self.recorded()
            } else {
                self.capacity()
            },
    {
        self.flags.lemma_len();
    }

    /// An empty history of `capacity` flags.
    pub fn new(capacity: usize) -> (h: Self)
        requires
            capacity > 0,
        ensures
            h.wf(),
            h.flags() == Seq::<bool>::empty(),
            h.recorded() == 0,
            h.capacity() == capacity,
    {
        AnomalyHistory { flags: SlidingWindow::new(capacity, false) }
    }

    /// Records whether the latest sample was flagged. Returns whether the
    /// threshold is due for adjustment: the history is full and the write
    /// position has come round to a multiple of ten.
    pub fn record(&mut self, is_anomaly: bool) -> (adjust: bool)
        requires
            old(self).wf(),
        ensures
            final(self).wf(),
            final(self).capacity() == old(self).capacity(),
            final(self).recorded() == old(self).recorded() + 1,
            final(self).flags() == if old(self).flags().len() < old(self).capacity() {
                old(self).flags().push(is_anomaly)
            } else {
                old(self).flags().drop_first().push(is_anomaly)
            },
            adjust == (final(self).recorded() >= final(self).capacity() && (final(self).recorded()
                % final(self).capacity()) % 10 == 0),
    {
        proof {
            self.flags.lemma_len();
        }
        self.flags.push(is_anomaly);
        proof {
            self.flags.lemma_len();
        }
        self.flags.is_full() && self.flags.position() % 10 == 0
    }

    /// How many of the recent samples were flagged.
    pub fn anomaly_count(&self) -> (n: usize)
        requires
            self.wf(),
        ensures
            n == count_true(self.flags()),
            n <= self.flags().len(),
    {
        proof {
            crate::window::lemma_count_true_bound(self.flags@.items);
        }
        self.flags.count_true()
    }

    /// How many recent samples the history holds.
    pub fn len(&self) -> (n: usize)
        requires
            self.wf(),
        ensures
            n == self.flags().len(),
    {
        self.flags.len()
    }
}

/// With a capacity that is a multiple of ten, a threshold is reconsidered
/// exactly on every tenth sample from the moment its history is full.
pub proof fn lemma_adjust_every_tenth(recorded: nat, capacity: nat)
    requires
        capacity > 0,
        capacity % 10 == 0,
    ensures
        (recorded >= capacity && (recorded % capacity) % 10 == 0) <==> (recorded >= capacity
            && recorded % 10 == 0),
{
    let m = capacity / 10;
    assert(capacity == 10 * m);
    vstd::arithmetic::div_mod::lemma_mod_mod(recorded as int, 10, m as int);
}

} // verus!
