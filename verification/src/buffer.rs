//! The bounded sliding window of recent samples for one channel.
//!
//! Samples arrive one at a time; when the buffer is full the oldest sample
//! is evicted, so the contents are always exactly the most recent part of
//! the full append history, in arrival order.

use crate::rat::Rat;
use vstd::prelude::*;
use vstd::seq_lib::lemma_seq_skip_of_skip;

verus! {

/// A bounded FIFO window over the history of appended samples.
///
/// `history` records every sample ever appended; well-formedness pins the
/// contents to the last `cap` entries of it (all of it while shorter).
pub struct SampleBuffer {
    pub data: Vec<Rat>,
    pub cap: usize,
    pub history: Ghost<Seq<Rat>>,
}

impl SampleBuffer {
    pub open spec fn wf(&self) -> bool {
        &&& self.cap >= 1
        &&& self.data@.len() <= self.cap
        &&& self.data@.len() <= self.history@.len()
        &&& self.data@ == self.history@.skip(self.history@.len() - self.data@.len())
    }

    pub fn new(cap: usize) -> (r: SampleBuffer)
        requires
            cap >= 1,
        ensures
            r.wf(),
            r.cap == cap,
            r.history@ == Seq::<Rat>::empty(),
            r.data@ == Seq::<Rat>::empty(),
    {
        let r = SampleBuffer { data: Vec::new(), cap, history: Ghost(Seq::empty()) };
        proof {
            assert(r.data@ =~= r.history@.skip(0));
        }
        r
    }

    /// Appends one sample, evicting the oldest if the window is full.
    pub fn append(&mut self, v: Rat)
        requires
            old(self).wf(),
        ensures
            final(self).wf(),
            final(self).cap == old(self).cap,
            final(self).history@ == old(self).history@.push(v),
            final(self).data@.len() == if old(self).data@.len() < old(self).cap {
                old(self).data@.len() + 1int
            } else {
                old(self).cap as int
            },
    {
        self.data.push(v);
        self.history = Ghost(self.history@.push(v));
        let ghost h = self.history@;
        let ghost k = h.len() - old(self).data@.len() - 1;
        proof {
            assert(self.data@ =~= h.skip(k));
        }
        if self.data.len() > self.cap {
            self.data.remove(0);
            proof {
                assert(self.data@ =~= h.skip(k).skip(1));
                lemma_seq_skip_of_skip(h, k, 1);
            }
        }
    }

    /// A point-in-time copy of the current contents, oldest first.
    pub fn snapshot(&self) -> (r: Vec<Rat>)
        ensures
            r@ == self.data@,
    {
        let n = self.data.len();
        let mut r: Vec<Rat> = Vec::new();
        let mut i: usize = 0;
        while i < n
            invariant
                i <= n,
                n == self.data@.len(),
                r@ == self.data@.take(i as int),
            decreases n - i,
        {
            let v = self.data[i];
            r.push(v);
            proof {
                assert(self.data@.take(i as int + 1) =~= self.data@.take(i as int).push(
                    self.data@[i as int],
                ));
            }
            i += 1;
        }
        proof {
            assert(self.data@.take(n as int) =~= self.data@);
        }
        r
    }

    /// Changes the window size. Shrinking evicts the oldest samples at
    /// once; growing has no immediate effect on the contents.
    pub fn set_capacity(&mut self, n: usize)
        requires
            old(self).wf(),
            n >= 1,
        ensures
            final(self).wf(),
            final(self).cap == n,
            final(self).history@ == old(self).history@,
            final(self).data@.len() == if old(self).data@.len() <= n {
                old(self).data@.len() as int
            } else {
                n as int
            },
    {
        self.cap = n;
        while self.data.len() > n
            invariant
                n >= 1,
                self.cap == n,
                self.history == old(self).history,
                n <= self.data@.len() <= old(self).data@.len() || self.data@.len()
                    == old(self).data@.len(),
                self.data@.len() <= self.history@.len(),
                self.data@ == self.history@.skip(self.history@.len() - self.data@.len()),
            decreases self.data@.len(),
        {
            let ghost h = self.history@;
            let ghost k = h.len() - self.data@.len();
            self.data.remove(0);
            proof {
                assert(self.data@ =~= h.skip(k).skip(1));
                lemma_seq_skip_of_skip(h, k, 1);
            }
        }
    }

    /// The bounded-window law: the buffer never holds more than `cap`
    /// samples, and what it holds is exactly the most recent part of the
    /// append history, in arrival order; once the window has filled, that
    /// is exactly the last `cap` appended samples.
    pub proof fn lemma_bounded_window(&self)
        requires
            self.wf(),
        ensures
            self.data@.len() <= self.cap,
            self.data@ == self.history@.skip(self.history@.len() - self.data@.len()),
            self.data@.len() == self.cap ==> self.data@ == self.history@.skip(
                self.history@.len() - self.cap,
            ),
    {
    }
}

} // verus!
