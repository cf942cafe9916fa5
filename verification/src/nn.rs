//! Neural-network helpers: the causal attention mask, and the counters that
//! decide when a reduce-on-plateau schedule lowers the learning rate.

use vstd::prelude::*;

verus! {

/// Whether a plateau scheduler watches a metric that should fall or rise.
#[derive(Clone, Copy)]
pub enum PlateauMode {
    /// The metric should decrease
    Min,
    /// The metric should increase
    Max,
}

/// What a reduce-on-plateau schedule does on one step.
#[derive(Debug, Clone, Copy, PartialEq, Eq, Structural)]
pub enum PlateauStep {
    /// Still cooling down after a reduction: the metric is not looked at
    Cooldown,
    /// The metric improved on the best so far
    Improved,
    /// No improvement, and the patience is not used up
    Waiting,
    /// No improvement for `patience` steps in a row: lower the learning rate
    Reduce,
}

/// One step of the plateau counters with the given patience and cooldown,
/// from cooldown counter `cc` and bad-epoch count `bad`, when the metric did
/// (`improved`) or did not improve: the new counters and the step taken.
pub open spec fn plateau_next(patience: nat, cooldown: nat, cc: nat, bad: nat, improved: bool) -> (nat, nat, PlateauStep) {
    if cc > 0 {
        ((cc - 1) as nat, bad, PlateauStep::Cooldown)
    } else if improved {
        (cc, 0, PlateauStep::Improved)
    } else if bad + 1 >= patience {
        (cooldown, 0, PlateauStep::Reduce)
    } else {
        (cc, bad + 1, PlateauStep::Waiting)
    }
}

/// The steps taken over a run of observations, starting from counters `cc`
/// and `bad`.
pub open spec fn plateau_run(patience: nat, cooldown: nat, cc: nat, bad: nat, events: Seq<bool>) -> Seq<PlateauStep>
    decreases events.len(),
{
    if events.len() == 0 {
        Seq::empty()
    } else {
        let (cc1, bad1, act) = plateau_next(patience, cooldown, cc, bad, events[0]);
        seq![act] + plateau_run(patience, cooldown, cc1, bad1, events.drop_first())
    }
}

/// The counters of a reduce-on-plateau schedule: how many steps in a row
/// brought no improvement, and how many cooldown steps remain.
pub struct PlateauCounters {
    patience: usize,
    cooldown: usize,
    num_bad_epochs: usize,
    cooldown_counter: usize,
}

impl PlateauCounters {
    /// Steps without improvement before a reduction.
    pub closed spec fn spec_patience(&self) -> nat {
        self.patience as nat
    }

    /// Steps skipped after a reduction.
    pub closed spec fn spec_cooldown(&self) -> nat {
        self.cooldown as nat
    }

    /// Steps in a row without improvement.
    pub closed spec fn spec_bad_epochs(&self) -> nat {
        self.num_bad_epochs as nat
    }

    /// Cooldown steps that remain.
    pub closed spec fn spec_cooldown_counter(&self) -> nat {
        self.cooldown_counter as nat
    }

    /// The bad-epoch count stays below the patience (or at zero).
    pub closed spec fn wf(&self) -> bool {
        self.num_bad_epochs == 0 || self.num_bad_epochs < self.patience
    }

    /// Fresh counters: no bad steps, no cooldown.
    pub fn new(patience: usize, cooldown: usize) -> (r: Self)
        ensures
            r.wf(),
            r.spec_patience() == patience,
            r.spec_cooldown() == cooldown,
            r.spec_bad_epochs() == 0,
            r.spec_cooldown_counter() == 0,
    {
        PlateauCounters { patience, cooldown, num_bad_epochs: 0, cooldown_counter: 0 }
    }

    /// Takes one step, given whether the metric improved (which is not looked
    /// at while cooling down).
    pub fn step(&mut self, improved: bool) -> (act: PlateauStep)
        requires
            old(self).wf(),
        ensures
            final(self).wf(),
            final(self).spec_patience() == old(self).spec_patience(),
            final(self).spec_cooldown() == old(self).spec_cooldown(),
            (final(self).spec_cooldown_counter(), final(self).spec_bad_epochs(), act) == plateau_next(
                old(self).spec_patience(),
                old(self).spec_cooldown(),
                old(self).spec_cooldown_counter(),
                old(self).spec_bad_epochs(),
                improved,
            ),
            act == PlateauStep::Cooldown <==> old(self).spec_cooldown_counter() > 0,
            act == PlateauStep::Improved <==> old(self).spec_cooldown_counter() == 0 && improved,
            act == PlateauStep::Improved ==> final(self).spec_bad_epochs() == 0 && final(self).spec_cooldown_counter() == 0,
            act == PlateauStep::Reduce ==> final(self).spec_bad_epochs() == 0
                && final(self).spec_cooldown_counter() == old(self).spec_cooldown()
                && old(self).spec_bad_epochs() + 1 >= old(self).spec_patience(),
            act == PlateauStep::Waiting ==> final(self).spec_bad_epochs() == old(self).spec_bad_epochs() + 1
                && final(self).spec_bad_epochs() < old(self).spec_patience(),
    {
        if self.cooldown_counter > 0 {
            self.cooldown_counter = self.cooldown_counter - 1;
            return PlateauStep::Cooldown;
        }
        if improved {
            self.num_bad_epochs = 0;
            return PlateauStep::Improved;
        }
        if self.num_bad_epochs + 1 >= self.patience {
            self.num_bad_epochs = 0;
            self.cooldown_counter = self.cooldown;
            PlateauStep::Reduce
        } else {
            self.num_bad_epochs = self.num_bad_epochs + 1;
            PlateauStep::Waiting
        }
    }

    /// Steps in a row without improvement.
    pub fn num_bad_epochs(&self) -> (r: usize)
        ensures
            r == self.spec_bad_epochs(),
    {
        self.num_bad_epochs
    }

    /// Cooldown steps that remain.
    pub fn cooldown_counter(&self) -> (r: usize)
        ensures
            r == self.spec_cooldown_counter(),
    {
        self.cooldown_counter
    }
}

/// A run of the plateau counters takes one step per observation.
proof fn lemma_plateau_run_len(patience: nat, cooldown: nat, cc: nat, bad: nat, events: Seq<bool>)
    ensures
        plateau_run(patience, cooldown, cc, bad, events).len() == events.len(),
    decreases events.len(),
{
    if events.len() > 0 {
        let (cc1, bad1, act) = plateau_next(patience, cooldown, cc, bad, events[0]);
        lemma_plateau_run_len(patience, cooldown, cc1, bad1, events.drop_first());
    }
}

/// After a reduction the schedule cools down: while cooldown steps remain,
/// every step is a cooldown step, whatever the metric does.
pub proof fn lemma_plateau_cooldown(patience: nat, cooldown: nat, cc: nat, bad: nat, events: Seq<bool>, k: int)
    requires
        0 <= k < events.len(),
        k < cc,
    ensures
        plateau_run(patience, cooldown, cc, bad, events)[k] == PlateauStep::Cooldown,
    decreases events.len(),
{
    let rest = events.drop_first();
    let tail = plateau_run(patience, cooldown, (cc - 1) as nat, bad, rest);
    lemma_plateau_run_len(patience, cooldown, (cc - 1) as nat, bad, rest);
    assert(plateau_run(patience, cooldown, cc, bad, events) == seq![PlateauStep::Cooldown] + tail);
    if k > 0 {
        lemma_plateau_cooldown(patience, cooldown, (cc - 1) as nat, bad, rest, k - 1);
        assert((seq![PlateauStep::Cooldown] + tail)[k] == tail[k - 1]);
    }
}

/// Outside cooldown, `patience` steps in a row without improvement lead to
/// one reduction: the steps wait until the patience is used up, then the last
/// one reduces.
pub proof fn lemma_plateau_patience(patience: nat, cooldown: nat, bad: nat, events: Seq<bool>, k: int)
    requires
        patience >= 1,
        bad < patience,
        events.len() >= patience - bad,
        forall|t: int| 0 <= t < patience - bad ==> !#[trigger] events[t],
        0 <= k < patience - bad,
    ensures
        plateau_run(patience, cooldown, 0, bad, events)[k]
            == if k == patience - bad - 1 { PlateauStep::Reduce } else { PlateauStep::Waiting },
    decreases events.len(),
{
    assert(!events[0]);
    let rest = events.drop_first();
    let (cc1, bad1, act) = plateau_next(patience, cooldown, 0, bad, events[0]);
    let tail = plateau_run(patience, cooldown, cc1, bad1, rest);
    lemma_plateau_run_len(patience, cooldown, cc1, bad1, rest);
    assert(plateau_run(patience, cooldown, 0, bad, events) == seq![act] + tail);
    if k > 0 {
        assert(act == PlateauStep::Waiting);
        assert(cc1 == 0 && bad1 == bad + 1);
        assert forall|t: int| 0 <= t < patience - (bad + 1) implies !#[trigger] rest[t] by {
            assert(rest[t] == events[t + 1]);
        }
        lemma_plateau_patience(patience, cooldown, bad + 1, rest, k - 1);
        assert((seq![act] + tail)[k] == tail[k - 1]);
    }
}

/// An improvement outside cooldown starts the count of bad steps afresh:
/// after it, the next `patience - 1` steps without improvement all wait, and
/// the one after them reduces, whatever the count was before.
pub proof fn lemma_plateau_improvement_resets(patience: nat, cooldown: nat, bad: nat, events: Seq<bool>, k: int)
    requires
        patience >= 1,
        events.len() >= patience + 1,
        events[0],
        forall|t: int| 1 <= t <= patience ==> !#[trigger] events[t],
        1 <= k <= patience,
    ensures
        plateau_run(patience, cooldown, 0, bad, events)[0] == PlateauStep::Improved,
        plateau_run(patience, cooldown, 0, bad, events)[k]
            == if k == patience { PlateauStep::Reduce } else { PlateauStep::Waiting },
{
    let rest = events.drop_first();
    let tail = plateau_run(patience, cooldown, 0, 0, rest);
    lemma_plateau_run_len(patience, cooldown, 0, 0, rest);
    assert(plateau_run(patience, cooldown, 0, bad, events) == seq![PlateauStep::Improved] + tail);
    assert forall|t: int| 0 <= t < patience - 0 implies !#[trigger] rest[t] by {
        assert(rest[t] == events[t + 1]);
    }
    lemma_plateau_patience(patience, cooldown, 0, rest, k - 1);
    assert((seq![PlateauStep::Improved] + tail)[k] == tail[k - 1]);
}

/// Causal mask for a decoder of `seq_len` positions: position `i` may attend
/// to position `j` (entry 1) exactly when `j <= i`; otherwise the entry is 0.
pub fn create_causal_mask(seq_len: usize) -> (mask: Vec<Vec<u8>>)
    ensures
        mask@.len() == seq_len,
        forall|i: int| 0 <= i < seq_len ==> (#[trigger] mask@[i])@.len() == seq_len,
        forall|i: int, j: int| 0 <= i < seq_len && 0 <= j < seq_len ==>
            #[trigger] mask@[i]@[j] == if j <= i { 1u8 } else { 0u8 },
{
    let mut mask: Vec<Vec<u8>> = Vec::new();
    let mut i: usize = 0;
    while i < seq_len
        invariant
            i <= seq_len,
            mask@.len() == i,
            forall|r: int| 0 <= r < i ==> (#[trigger] mask@[r])@.len() == seq_len,
            forall|r: int, j: int| 0 <= r < i && 0 <= j < seq_len ==>
                #[trigger] mask@[r]@[j] == if j <= r { 1u8 } else { 0u8 },
        decreases seq_len - i,
    {
        let mut row: Vec<u8> = Vec::new();
        let mut j: usize = 0;
        while j < seq_len
            invariant
                j <= seq_len,
                row@.len() == j,
                forall|c: int| 0 <= c < j ==> #[trigger] row@[c] == if c <= i { 1u8 } else { 0u8 },
            decreases seq_len - j,
        {
            if j <= i {
                row.push(1);
            } else {
                row.push(0);
            }
            j = j + 1;
        }
        mask.push(row);
        i = i + 1;
    }
    mask
}

} // verus!
