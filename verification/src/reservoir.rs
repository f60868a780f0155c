//! Reservoir sampling with deferred commits.
//!
//! A [`StageReservoir`] consumes an unbounded, time-ordered stream of
//! `(step, payload)` records and maintains a fixed-capacity sample of the
//! stream in which the most recent record is always present. The worker that
//! owns it may, at any time, publish the staged changes into a separately
//! held commit view; the cost of a commit is proportional to the records that
//! survived sampling, not to the records streamed.

use vstd::prelude::*;

use crate::control::DefaultControl;
use crate::control::ReservoirControl;
use crate::merge::firsts;
use crate::merge::retained;

verus! {

/// A step associated with a record. The step values in a record stream are
/// expected to be strictly increasing over time.
#[derive(Debug, PartialEq, Eq, Structural, PartialOrd, Ord, Hash, Copy, Clone)]
pub struct Step(pub i64);

/// Eviction of the logical last element: the last staged item if one is
/// staged, otherwise the last committed step, otherwise nothing.
pub open spec fn evict_last<T>(committed: Seq<Step>, staged: Seq<(Step, T)>) -> (Seq<Step>, Seq<
    (Step, T),
>) {
    if staged.len() > 0 {
        (committed, staged.drop_last())
    } else if committed.len() > 0 {
        (committed.drop_last(), staged)
    } else {
        (committed, staged)
    }
}

/// Eviction of the element at logical index `i`, counting from the start of
/// the committed steps through the end of the staged items.
pub open spec fn evict_at<T>(committed: Seq<Step>, staged: Seq<(Step, T)>, i: int) -> (Seq<Step>, Seq<
    (Step, T),
>)
    recommends
        0 <= i < committed.len() + staged.len(),
{
    if i < committed.len() {
        (committed.remove(i), staged)
    } else {
        (committed, staged.remove(i - committed.len()))
    }
}

/// The state one offer leaves behind, given the destination `dst` the control
/// rolled: a destination at or beyond capacity evicts the logical last
/// element; a destination within capacity evicts the element at that index
/// when the reservoir is full; the offered record is then always appended.
pub open spec fn offer_result<T>(
    committed: Seq<Step>,
    staged: Seq<(Step, T)>,
    capacity: int,
    dst: int,
    step: Step,
    v: T,
) -> (Seq<Step>, Seq<(Step, T)>) {
    let evicted = if dst >= capacity {
        evict_last(committed, staged)
    } else if committed.len() + staged.len() >= capacity {
        evict_at(committed, staged, dst)
    } else {
        (committed, staged)
    };
    (evicted.0, evicted.1.push((step, v)))
}

/// A reservoir sampling data structure with deferred "commits" of records to
/// a separate destination for better concurrency. This structure always keeps
/// the latest record in the reservoir, and therefore must inspect every
/// record in the stream.
pub struct StageReservoir<T, C = DefaultControl> {
    /// Steps of items currently in the reservoir whose values have already
    /// been committed. All steps in `committed_steps` logically precede all
    /// steps in `staged_items`.
    committed_steps: Vec<Step>,
    /// Items currently in the reservoir but not yet committed.
    staged_items: Vec<(Step, T)>,
    /// Total capacity of this reservoir: the combined lengths of
    /// `committed_steps` and `staged_items` never exceed it.
    capacity: usize,
    /// Reservoir control, to determine whether and whither a given new record
    /// should be included.
    pub ctl: C,
    /// Total number of records passed in the stream so far, regardless of
    /// whether they were ever added to the reservoir.
    seen: usize,
}

impl<T, C> StageReservoir<T, C> {
    /// The steps of the records already merged into the commit view, in
    /// logical order.
    pub closed spec fn committed(&self) -> Seq<Step> {
        self.committed_steps@
    }

    /// The records accepted into the reservoir but not yet committed, in
    /// logical order.
    pub closed spec fn staged(&self) -> Seq<(Step, T)> {
        self.staged_items@
    }

    /// The fixed capacity this reservoir was constructed with.
    pub closed spec fn cap(&self) -> int {
        self.capacity as int
    }

    /// How many records have been offered so far.
    pub closed spec fn seen_count(&self) -> int {
        self.seen as int
    }

    /// The reservoir control this reservoir consults.
    pub closed spec fn control(&self) -> C {
        self.ctl
    }

    /// The steps of the reservoir's full logical content: committed steps
    /// followed by staged steps.
    pub open spec fn logical_steps(&self) -> Seq<Step> {
        self.committed() + firsts(self.staged())
    }

    /// Size invariant: the capacity is positive and the reservoir never holds
    /// more than `capacity` items, committed and staged together.
    pub open spec fn wf(&self) -> bool {
        &&& self.cap() >= 1
        &&& self.committed().len() + self.staged().len() <= self.cap()
    }
}

impl<T> StageReservoir<T, DefaultControl> {
    /// Creates a new reservoir with the specified capacity, using a fixed-seed
    /// random number generator for reservoir control. All reservoirs created
    /// by this function will use the same sequence of random numbers.
    pub fn new(capacity: usize) -> (r: Self)
        requires
            capacity >= 1,
        ensures
            r.wf(),
            r.committed() == Seq::<Step>::empty(),
            r.staged() == Seq::<(Step, T)>::empty(),
            r.cap() == capacity,
            r.seen_count() == 0,
            r.control().state() == Seq::<int>::empty(),
    {
        Self::with_control(capacity, DefaultControl::new())
    }
}

impl<T, C: ReservoirControl> StageReservoir<T, C> {
    /// Creates a new reservoir with the specified capacity and reservoir
    /// control.
    pub fn with_control(capacity: usize, ctl: C) -> (r: Self)
        requires
            capacity >= 1,
        ensures
            r.wf(),
            r.committed() == Seq::<Step>::empty(),
            r.staged() == Seq::<(Step, T)>::empty(),
            r.cap() == capacity,
            r.seen_count() == 0,
            r.control() == ctl,
    {
        StageReservoir {
            committed_steps: Vec::new(),
            staged_items: Vec::new(),
            capacity,
            ctl,
            seen: 0,
        }
    }

    /// Returns the number of items in the reservoir, including both committed
    /// and staged items.
    fn len(&self) -> (r: usize)
        requires
            self.committed().len() + self.staged().len() <= usize::MAX,
        ensures
            r == self.committed().len() + self.staged().len(),
    {
        self.committed_steps.len() + self.staged_items.len()
    }

    /// Pops the last item in this reservoir, which will be a staged item if
    /// there is one or a committed step otherwise. Has no effect if the
    /// reservoir is empty.
    fn pop(&mut self)
        ensures
            final(self).committed() == evict_last::<T>(old(self).committed(), old(self).staged()).0,
            final(self).staged() == evict_last::<T>(old(self).committed(), old(self).staged()).1,
            final(self).cap() == old(self).cap(),
            final(self).seen_count() == old(self).seen_count(),
            final(self).control() == old(self).control(),
    {
        if self.staged_items.pop().is_none() {
            self.committed_steps.pop();
        }
    }

    /// Removes the item at the given index in the logical sequence of items
    /// in the reservoir, counting from the start of the committed steps
    /// through the end of the staged items.
    fn remove(&mut self, index: usize)
        requires
            index < old(self).committed().len() + old(self).staged().len(),
        ensures
            final(self).committed() == evict_at::<T>(
                old(self).committed(),
                old(self).staged(),
                index as int,
            ).0,
            final(self).staged() == evict_at::<T>(
                old(self).committed(),
                old(self).staged(),
                index as int,
            ).1,
            final(self).cap() == old(self).cap(),
            final(self).seen_count() == old(self).seen_count(),
            final(self).control() == old(self).control(),
    {
        if index < self.committed_steps.len() {
            self.committed_steps.remove(index);
        } else {
            self.staged_items.remove(index - self.committed_steps.len());
        }
    }

    /// Offers a record to the reservoir. The reservoir will always include
    /// the latest record; other than the latest record, the records kept form
    /// a simple random sample of the stream under the default control.
    pub fn offer(&mut self, step: Step, v: T)
        requires
            old(self).wf(),
            old(self).seen_count() < usize::MAX,
            old(self).control().can_roll(old(self).seen_count() + 1),
        ensures
            final(self).wf(),
            final(self).cap() == old(self).cap(),
            final(self).seen_count() == old(self).seen_count() + 1,
            final(self).control().state() == old(self).control().rolled(old(self).seen_count() + 1),
            ({
                let next = offer_result(
                    old(self).committed(),
                    old(self).staged(),
                    old(self).cap(),
                    old(self).control().roll(old(self).seen_count() + 1),
                    step,
                    v,
                );
                final(self).committed() == next.0 && final(self).staged() == next.1
            }),
            final(self).staged().len() > 0,
            final(self).staged().last() == (step, v),
            final(self).logical_steps().len() > 0,
            final(self).logical_steps().last() == step,
    {
        self.seen = self.seen + 1;
        let n = self.seen;
        let dst = self.ctl.destination(n);

        // Didn't make the cut? Keep-last only.
        if dst >= self.capacity {
            self.pop();
        } else
        // No room? Evict the destination.
        if self.len() >= self.capacity {
            // From the guards, `dst < capacity <= len`, so the index is valid.
            self.remove(dst);
        }
        // In any case, add to end.
        self.staged_items.push((step, v));
        proof {
            assert(self.logical_steps() =~= self.committed() + firsts(self.staged()));
            assert(firsts(self.staged()).last() == step);
        }
    }

    /// Commits pending changes from this reservoir into a commit view,
    /// applying a mapping function to each new value. This can be used to
    /// perform relatively expensive conversions or enrichments only for
    /// records that are actually committed. The commit should be a vector
    /// that starts empty and is modified only by calls to
    /// `commit`/`commit_map` on this reservoir value.
    pub fn commit_map<S, F: Fn(T) -> S>(&mut self, head: &mut Vec<(Step, S)>, f: F)
        requires
            forall|i: int|
                0 <= i < old(self).staged().len() ==> call_requires(
                    f,
                    (old(self).staged()[i].1,),
                ),
        ensures
            final(self).committed() == old(self).committed() + firsts(old(self).staged()),
            final(self).staged() == Seq::<(Step, T)>::empty(),
            final(self).cap() == old(self).cap(),
            final(self).seen_count() == old(self).seen_count(),
            final(self).control() == old(self).control(),
            old(self).wf() ==> final(self).wf(),
            final(head)@.len() == retained(old(head)@, old(self).committed()).len()
                + old(self).staged().len(),
            forall|i: int|
                0 <= i < retained(old(head)@, old(self).committed()).len() ==> final(head)@[i]
                    == retained(old(head)@, old(self).committed())[i],
            forall|i: int|
                0 <= i < old(self).staged().len() ==> final(head)@[retained(
                    old(head)@,
                    old(self).committed(),
                ).len() + i].0 == old(self).staged()[i].0,
            forall|i: int|
                0 <= i < old(self).staged().len() ==> call_ensures(
                    f,
                    (old(self).staged()[i].1,),
                    final(head)@[retained(old(head)@, old(self).committed()).len() + i].1,
                ),
    {
        let ghost orig_self = *self;
        let ghost orig_head = head@;
        let ghost orig_committed = self.committed_steps@;
        let ghost orig_staged = self.staged_items@;

        // Walk the view in order by first reversing it into a scratch stack.
        let mut rev: Vec<(Step, S)> = Vec::new();
        while head.len() != 0
            invariant
                *self == orig_self,
                rev@.len() + head@.len() == orig_head.len(),
                forall|i: int| 0 <= i < head@.len() ==> head@[i] == orig_head[i],
                forall|j: int|
                    0 <= j < rev@.len() ==> rev@[j] == orig_head[orig_head.len() - 1 - j],
            decreases head@.len(),
        {
            let x = head.pop().unwrap();
            rev.push(x);
        }

        // Retain an existing view entry exactly when its step equals the next
        // unconsumed committed step.
        proof {
            assert(orig_head.skip(0) =~= orig_head);
            assert(orig_committed.skip(0) =~= orig_committed);
            assert(head@ + retained(orig_head, orig_committed) =~= retained(
                orig_head,
                orig_committed,
            ));
        }
        let mut k: usize = 0;
        while rev.len() != 0
            invariant
                *self == orig_self,
                orig_committed == self.committed_steps@,
                k <= orig_committed.len(),
                rev@.len() <= orig_head.len(),
                forall|j: int|
                    0 <= j < rev@.len() ==> rev@[j] == orig_head[orig_head.len() - 1 - j],
                head@ + retained(
                    orig_head.skip(orig_head.len() - rev@.len()),
                    orig_committed.skip(k as int),
                ) == retained(orig_head, orig_committed),
            decreases rev@.len(),
        {
            let ghost p = orig_head.len() - rev@.len();
            let x = rev.pop().unwrap();
            proof {
                assert(x == orig_head[p]);
                assert(orig_head.skip(p)[0] == orig_head[p]);
                assert(orig_head.skip(p).drop_first() =~= orig_head.skip(p + 1));
            }
            if k < self.committed_steps.len() && x.0 == self.committed_steps[k] {
                proof {
                    assert(orig_committed.skip(k as int)[0] == orig_committed[k as int]);
                    assert(orig_committed.skip(k as int).drop_first() =~= orig_committed.skip(
                        k as int + 1,
                    ));
                    assert(retained(orig_head.skip(p), orig_committed.skip(k as int))
                        =~= seq![orig_head[p]] + retained(
                        orig_head.skip(p + 1),
                        orig_committed.skip(k as int + 1),
                    ));
                }
                head.push(x);
                proof {
                    assert(head@ + retained(orig_head.skip(p + 1), orig_committed.skip(k as int + 1))
                        =~= retained(orig_head, orig_committed));
                }
                k = k + 1;
            } else {
                proof {
                    assert(retained(orig_head.skip(p), orig_committed.skip(k as int)) == retained(
                        orig_head.skip(p + 1),
                        orig_committed.skip(k as int),
                    ));
                }
            }
        }
        proof {
            assert(orig_head.skip(orig_head.len() - 0) =~= Seq::<(Step, S)>::empty());
            assert(head@ + Seq::<(Step, S)>::empty() =~= head@);
            assert(head@ == retained(orig_head, orig_committed));
        }

        // The staged steps are committed now.
        proof {
            assert(orig_committed + firsts(orig_staged.subrange(0, 0)) =~= orig_committed);
        }
        let mut i: usize = 0;
        while i < self.staged_items.len()
            invariant
                i <= orig_staged.len(),
                self.staged_items@ == orig_staged,
                self.committed_steps@ == orig_committed + firsts(
                    orig_staged.subrange(0, i as int),
                ),
                self.capacity == orig_self.capacity,
                self.seen == orig_self.seen,
                self.ctl == orig_self.ctl,
                head@ == retained(orig_head, orig_committed),
            decreases orig_staged.len() - i,
        {
            let s: Step = self.staged_items[i].0;
            self.committed_steps.push(s);
            proof {
                assert(firsts(orig_staged.subrange(0, i as int + 1)) =~= firsts(
                    orig_staged.subrange(0, i as int),
                ).push(orig_staged[i as int].0));
            }
            i = i + 1;
        }
        proof {
            assert(orig_staged.subrange(0, orig_staged.len() as int) =~= orig_staged);
        }

        // Drain the staged items in order, mapping each surviving payload
        // exactly once.
        let mut rev2: Vec<(Step, T)> = Vec::new();
        while self.staged_items.len() != 0
            invariant
                rev2@.len() + self.staged_items@.len() == orig_staged.len(),
                forall|i: int|
                    0 <= i < self.staged_items@.len() ==> self.staged_items@[i] == orig_staged[i],
                forall|j: int|
                    0 <= j < rev2@.len() ==> rev2@[j] == orig_staged[orig_staged.len() - 1 - j],
                self.committed_steps@ == orig_committed + firsts(orig_staged),
                self.capacity == orig_self.capacity,
                self.seen == orig_self.seen,
                self.ctl == orig_self.ctl,
                head@ == retained(orig_head, orig_committed),
            decreases self.staged_items@.len(),
        {
            let x = self.staged_items.pop().unwrap();
            rev2.push(x);
        }

        let ghost base = retained(orig_head, orig_committed).len() as int;
        proof {
            assert(orig_staged == old(self).staged());
            assert forall|i: int|
                0 <= i < orig_staged.len() implies call_requires(f, (orig_staged[i].1,)) by {
                assert(call_requires(f, (old(self).staged()[i].1,)));
            }
        }
        while rev2.len() != 0
            invariant
                base == retained(orig_head, orig_committed).len(),
                rev2@.len() <= orig_staged.len(),
                head@.len() == base + orig_staged.len() - rev2@.len(),
                forall|j: int|
                    0 <= j < rev2@.len() ==> rev2@[j] == orig_staged[orig_staged.len() - 1 - j],
                forall|i: int|
                    0 <= i < base ==> head@[i] == retained(orig_head, orig_committed)[i],
                forall|i: int|
                    0 <= i < orig_staged.len() - rev2@.len() ==> head@[base + i].0
                        == orig_staged[i].0,
                forall|i: int|
                    0 <= i < orig_staged.len() - rev2@.len() ==> call_ensures(
                        f,
                        (orig_staged[i].1,),
                        head@[base + i].1,
                    ),
                forall|i: int|
                    0 <= i < orig_staged.len() ==> call_requires(f, (orig_staged[i].1,)),
                self.staged_items@.len() == 0,
                self.committed_steps@ == orig_committed + firsts(orig_staged),
                self.capacity == orig_self.capacity,
                self.seen == orig_self.seen,
                self.ctl == orig_self.ctl,
            decreases rev2@.len(),
        {
            let ghost q = orig_staged.len() - rev2@.len();
            let x = rev2.pop().unwrap();
            proof {
                assert(x == orig_staged[q]);
                assert(call_requires(f, (orig_staged[q].1,)));
            }
            let ghost before = x;
            let s: Step = x.0;
            let mapped = f(x.1);
            let ghost head_pre = head@;
            head.push((s, mapped));
            proof {
                assert(call_ensures(f, (before.1,), mapped));
                assert(head_pre.len() == base + q);
                assert(head@ == head_pre.push((s, mapped)));
                assert(head@[base + q] == (s, mapped));
                assert(forall|i: int| 0 <= i < head_pre.len() ==> head@[i] == head_pre[i]);
                assert forall|i: int|
                    0 <= i < orig_staged.len() - rev2@.len() implies head@[base + i].0
                    == orig_staged[i].0 by {
                    if i < q {
                        assert(0 <= base + i < head_pre.len());
                        assert(head_pre.push((s, mapped))[base + i] == head_pre[base + i]);
                        assert(head@[base + i] == head_pre[base + i]);
                    } else {
                        assert(i == q);
                    }
                }
                assert forall|i: int|
                    0 <= i < orig_staged.len() - rev2@.len() implies call_ensures(
                    f,
                    (orig_staged[i].1,),
                    head@[base + i].1,
                ) by {
                    if i < q {
                        assert(0 <= base + i < head_pre.len());
                        assert(head_pre.push((s, mapped))[base + i] == head_pre[base + i]);
                        assert(head@[base + i] == head_pre[base + i]);
                        assert(call_ensures(f, (orig_staged[i].1,), head_pre[base + i].1));
                    } else {
                        assert(i == q);
                        assert(head@[base + q].1 == mapped);
                        assert(before.1 == orig_staged[q].1);
                    }
                }
            }
        }
        proof {
            assert(self.staged_items@ =~= Seq::<(Step, T)>::empty());
        }
    }

    /// Commits pending changes from this reservoir into a commit view. The
    /// commit should be a vector that starts empty and is modified only by
    /// calls to `commit`/`commit_map` on this reservoir value.
    pub fn commit(&mut self, head: &mut Vec<(Step, T)>)
        ensures
            final(self).committed() == old(self).committed() + firsts(old(self).staged()),
            final(self).staged() == Seq::<(Step, T)>::empty(),
            final(self).cap() == old(self).cap(),
            final(self).seen_count() == old(self).seen_count(),
            final(self).control() == old(self).control(),
            old(self).wf() ==> final(self).wf(),
            final(head)@ == retained(old(head)@, old(self).committed()) + old(self).staged(),
    {
        let ghost orig_head = head@;
        let ghost orig_committed = self.committed_steps@;
        let ghost orig_staged = self.staged_items@;
        let identity = |t: T| -> (r: T)
            ensures
                r == t,
            { t };
        self.commit_map(head, identity);
        proof {
            let kept = retained(orig_head, orig_committed);
            assert forall|i: int| 0 <= i < head@.len() implies head@[i] == (kept + orig_staged)[i] by {
                if i >= kept.len() {
                    let j = i - kept.len();
                    assert(head@[kept.len() + j].0 == orig_staged[j].0);
                    assert(call_ensures(identity, (orig_staged[j].1,), head@[kept.len() + j].1));
                    assert(head@[i].1 == orig_staged[j].1);
                }
            }
            assert(head@ =~= kept + orig_staged);
        }
    }

    /// Accesses a view of the currently staged items.
    pub fn staged_items(&self) -> (r: &[(Step, T)])
        ensures
            r@ == self.staged(),
    {
        self.staged_items.as_slice()
    }
}

} // verus!
