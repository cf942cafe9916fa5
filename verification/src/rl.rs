//! Experience replay for reinforcement learning.

use vstd::prelude::*;
use std::collections::VecDeque;
use crate::random::random_below;

verus! {

/// How many experiences a buffer made with `capacity` keeps: its capacity,
/// but at least the newest experience.
pub open spec fn kept(capacity: nat) -> nat {
    if capacity == 0 { 1 } else { capacity }
}

/// The contents after pushing `e` onto `held`: the oldest experience leaves
/// first when the buffer is full.
pub open spec fn after_push<E>(capacity: nat, held: Seq<E>, e: E) -> Seq<E> {
    if held.len() >= capacity && held.len() > 0 {
        held.drop_first().push(e)
    } else {
        held.push(e)
    }
}

/// The newest `kept(capacity)` experiences of `history`, oldest first.
pub open spec fn newest<E>(capacity: nat, history: Seq<E>) -> Seq<E> {
    if history.len() <= kept(capacity) {
        history
    } else {
        history.subrange(history.len() - kept(capacity), history.len() as int)
    }
}

/// Each item of `out` is a clone of an item of `items`.
pub open spec fn drawn_from<E: Clone>(items: Seq<E>, out: Seq<E>) -> bool {
    forall|j: int| 0 <= j < out.len() ==>
        exists|k: int| 0 <= k < items.len() && cloned::<E>(items[k], #[trigger] out[j])
}

/// Experience replay buffer: a first-in-first-out store of bounded size.
pub struct ReplayBuffer<E> {
    buffer: VecDeque<E>,
    capacity: usize,
}

impl<E> ReplayBuffer<E> {
    /// The experiences held, oldest first.
    pub closed spec fn spec_items(&self) -> Seq<E> {
        self.buffer@
    }

    /// The capacity the buffer was made with.
    pub closed spec fn spec_capacity(&self) -> nat {
        self.capacity as nat
    }

    /// The buffer never holds more than it keeps.
    pub closed spec fn wf(&self) -> bool {
        self.buffer@.len() <= kept(self.capacity as nat)
    }

    /// An empty buffer of the given capacity.
    pub fn new(capacity: usize) -> (r: Self)
        ensures
            r.wf(),
            r.spec_items() == Seq::<E>::empty(),
            r.spec_capacity() == capacity,
    {
        ReplayBuffer { buffer: VecDeque::with_capacity(capacity), capacity }
    }

    /// Adds an experience, dropping the oldest one when the buffer is full.
    pub fn push(&mut self, experience: E)
        requires
            old(self).wf(),
        ensures
            final(self).wf(),
            final(self).spec_capacity() == old(self).spec_capacity(),
            final(self).spec_items() == after_push(old(self).spec_capacity(), old(self).spec_items(), experience),
    {
        if self.buffer.len() >= self.capacity {
            let _ = self.buffer.pop_front();
        }
        self.buffer.push_back(experience);
    }

    /// Number of experiences held.
    pub fn len(&self) -> (r: usize)
        ensures
            r == self.spec_items().len(),
    {
        self.buffer.len()
    }

    /// Whether no experience is held.
    pub fn is_empty(&self) -> (r: bool)
        ensures
            r == (self.spec_items().len() == 0),
    {
        self.buffer.len() == 0
    }
}

impl<E: Clone> ReplayBuffer<E> {
    /// A batch of `batch_size` experiences drawn uniformly with replacement;
    /// empty when the buffer is empty. The batch holds the experiences at the
    /// drawn positions, in the order drawn.
    pub fn sample(&self, batch_size: usize) -> (r: Vec<E>)
        ensures
            self.spec_items().len() == 0 ==> r@.len() == 0,
            self.spec_items().len() > 0 ==> r@.len() == batch_size,
            drawn_from(self.spec_items(), r@),
            self.spec_items().len() > 0 ==> exists|draws: Seq<usize>| #[trigger] draws.len() == batch_size
                && forall|j: int| 0 <= j < draws.len() ==> (#[trigger] draws[j]) < self.spec_items().len()
                    && cloned::<E>(self.spec_items()[draws[j] as int], r@[j]),
    {
        let n = self.buffer.len();
        if n == 0 {
            return Vec::new();
        }
        let mut draws: Vec<usize> = Vec::new();
        let mut t: usize = 0;
        while t < batch_size
            invariant
                n == self.buffer@.len(),
                n > 0,
                t <= batch_size,
                draws@.len() == t,
                forall|j: int| 0 <= j < draws@.len() ==> #[trigger] draws@[j] < n,
            decreases batch_size - t,
        {
            draws.push(random_below(n));
            t = t + 1;
        }
        let r = self.pick_experiences(&draws);
        proof {
            assert(draws@.len() == batch_size);
        }
        r
    }

    /// The experiences at the positions `draws`, oldest first being position
    /// 0, in the order of `draws` (each a clone).
    pub fn pick_experiences(&self, draws: &Vec<usize>) -> (r: Vec<E>)
        requires
            forall|j: int| 0 <= j < draws@.len() ==> #[trigger] draws@[j] < self.spec_items().len(),
        ensures
            r@.len() == draws@.len(),
            forall|j: int| 0 <= j < draws@.len() ==> cloned::<E>(self.spec_items()[#[trigger] draws@[j] as int], r@[j]),
            drawn_from(self.spec_items(), r@),
    {
        let mut samples: Vec<E> = Vec::new();
        let mut t: usize = 0;
        while t < draws.len()
            invariant
                forall|j: int| 0 <= j < draws@.len() ==> #[trigger] draws@[j] < self.spec_items().len(),
                t <= draws@.len(),
                samples@.len() == t,
                forall|j: int| 0 <= j < t ==> cloned::<E>(self.spec_items()[#[trigger] draws@[j] as int], samples@[j]),
                drawn_from(self.spec_items(), samples@),
            decreases draws@.len() - t,
        {
            let idx = draws[t];
            let e = self.buffer[idx].clone();
            let ghost before = samples@;
            samples.push(e);
            proof {
                assert(cloned::<E>(self.spec_items()[idx as int], e));
                assert forall|j: int| 0 <= j < t + 1 implies cloned::<E>(self.spec_items()[#[trigger] draws@[j] as int], samples@[j]) by {
                    if j < t {
                        assert(samples@[j] == before[j]);
                    }
                }
                assert forall|j: int| 0 <= j < samples@.len() implies
                    exists|k: int| 0 <= k < self.spec_items().len() && cloned::<E>(self.spec_items()[k], #[trigger] samples@[j]) by {
                    if j < before.len() {
                        assert(samples@[j] == before[j]);
                    } else {
                        assert(samples@[j] == e);
                        assert(cloned::<E>(self.spec_items()[draws@[j] as int], samples@[j]));
                    }
                }
            }
            t = t + 1;
        }
        samples
    }
}

/// Pushing onto the newest experiences of a history gives the newest
/// experiences of the history with the new one appended: a replay buffer
/// always holds the most recent experiences, up to its capacity (and at least
/// the last one).
pub proof fn lemma_push_keeps_newest<E>(capacity: nat, history: Seq<E>, e: E)
    ensures
        after_push(capacity, newest(capacity, history), e) == newest(capacity, history.push(e)),
        newest(capacity, history.push(e)).len() <= kept(capacity),
{
    let h2 = history.push(e);
    let w = newest(capacity, history);
    if history.len() < kept(capacity) {
        assert(w == history);
        assert(after_push(capacity, w, e) =~= h2);
    } else {
        let k = kept(capacity);
        assert(w.len() == k);
        assert(after_push(capacity, w, e) =~= h2.subrange(h2.len() - k, h2.len() as int));
    }
}

} // verus!
