//! Engine-level guarantees that relate several operations, proved once over
//! the spec-level transitions in which the engine's contracts are stated.

use vstd::prelude::*;

use crate::control::default_draw;
use crate::merge::firsts;
use crate::merge::lemma_retained_all;
use crate::merge::lemma_retained_firsts;
use crate::merge::lemma_retained_remove;
use crate::merge::lemma_subseq_of_remove;
use crate::merge::lemma_subseq_of_self;
use crate::merge::retained;
use crate::merge::subseq_of;
use crate::reservoir::offer_result;
use crate::reservoir::Step;

verus! {

/// The full logical content of an engine paired with its commit view: the
/// view entries that a commit would retain, followed by the staged items.
pub open spec fn logical_view<T>(
    head: Seq<(Step, T)>,
    committed: Seq<Step>,
    staged: Seq<(Step, T)>,
) -> Seq<(Step, T)> {
    retained(head, committed) + staged
}

/// One offer, seen on the logical content alone: a destination at or beyond
/// capacity evicts the last element; one within capacity evicts the element
/// at that index when the content is full; the offered record is appended.
pub open spec fn offer_logical<T>(
    pool: Seq<(Step, T)>,
    capacity: int,
    dst: int,
    step: Step,
    v: T,
) -> Seq<(Step, T)> {
    let evicted = if dst >= capacity {
        if pool.len() > 0 {
            pool.drop_last()
        } else {
            pool
        }
    } else if pool.len() >= capacity {
        pool.remove(dst)
    } else {
        pool
    };
    evicted.push((step, v))
}

/// Commit idempotence on immediate re-commit: after a commit, the view's
/// steps equal the committed steps and nothing is staged; a commit made in
/// that state retains every view entry and appends nothing, so the view is
/// left unchanged.
pub proof fn lemma_commit_idempotent<T>(head: Seq<(Step, T)>, committed: Seq<Step>)
    requires
        committed == firsts(head),
    ensures
        retained(head, committed) + Seq::<(Step, T)>::empty() == head,
{
    lemma_retained_all::<Step, T>(head);
    assert(retained(head, committed) + Seq::<(Step, T)>::empty() =~= head);
}

/// Determinism: the transition an offer makes is a function of the engine's
/// logical state alone, and the default control's draw is a function of its
/// draw history alone; so two engines with the default control, equal
/// capacities, equal contents and equal histories make the same eviction
/// choice, the same transition, and leave equal histories, on any offered
/// record.
pub proof fn lemma_offer_deterministic<T>(
    committed1: Seq<Step>,
    staged1: Seq<(Step, T)>,
    history1: Seq<int>,
    seen1: int,
    committed2: Seq<Step>,
    staged2: Seq<(Step, T)>,
    history2: Seq<int>,
    seen2: int,
    capacity: int,
    step: Step,
    v: T,
)
    requires
        committed1 == committed2,
        staged1 == staged2,
        history1 == history2,
        seen1 == seen2,
    ensures
        default_draw(history1, seen1 + 1) == default_draw(history2, seen2 + 1),
        offer_result(committed1, staged1, capacity, default_draw(history1, seen1 + 1), step, v)
            == offer_result(
            committed2,
            staged2,
            capacity,
            default_draw(history2, seen2 + 1),
            step,
            v,
        ),
        history1.push(seen1 + 1) == history2.push(seen2 + 1),
{
}

/// Commit/offer independence, commit half: a commit publishes exactly the
/// logical content into the view and leaves that content unchanged, and the
/// new view's steps are in lock step with the new committed steps.
pub proof fn lemma_commit_preserves_logical<T>(
    head: Seq<(Step, T)>,
    committed: Seq<Step>,
    staged: Seq<(Step, T)>,
)
    requires
        subseq_of(committed, firsts(head)),
    ensures
        ({
            let new_head = retained(head, committed) + staged;
            let new_committed = committed + firsts(staged);
            &&& new_head == logical_view(head, committed, staged)
            &&& firsts(new_head) == new_committed
            &&& logical_view(new_head, new_committed, Seq::<(Step, T)>::empty())
                == logical_view(head, committed, staged)
            &&& subseq_of(new_committed, firsts(new_head))
        }),
{
    let new_head = retained(head, committed) + staged;
    let new_committed = committed + firsts(staged);
    lemma_retained_firsts(head, committed);
    assert(firsts(new_head) =~= firsts(retained(head, committed)) + firsts(staged));
    lemma_retained_all::<Step, T>(new_head);
    assert(logical_view(new_head, new_committed, Seq::<(Step, T)>::empty()) =~= new_head);
    lemma_subseq_of_self(new_committed);
}

/// Commit/offer independence, offer half: when the view's steps are free of
/// duplicates and the committed steps occur in order within them, an offer
/// changes the logical content as a function of that content, the capacity
/// and the destination alone — however the content is split between committed
/// and staged — and keeps the committed steps within the view's steps.
pub proof fn lemma_offer_preserves_logical<T>(
    head: Seq<(Step, T)>,
    committed: Seq<Step>,
    staged: Seq<(Step, T)>,
    capacity: int,
    dst: int,
    step: Step,
    v: T,
)
    requires
        subseq_of(committed, firsts(head)),
        firsts(head).no_duplicates(),
        capacity >= 1,
        0 <= dst,
    ensures
        ({
            let next = offer_result(committed, staged, capacity, dst, step, v);
            &&& logical_view(head, next.0, next.1) == offer_logical(
                logical_view(head, committed, staged),
                capacity,
                dst,
                step,
                v,
            )
            &&& subseq_of(next.0, firsts(head))
        }),
{
    lemma_retained_firsts(head, committed);
    let kept = retained(head, committed);
    assert(kept.len() == committed.len());
    let pool = kept + staged;
    let next = offer_result(committed, staged, capacity, dst, step, v);
    if dst >= capacity {
        if staged.len() > 0 {
            assert(retained(head, committed) + staged.drop_last() =~= pool.drop_last());
        } else if committed.len() > 0 {
            let last = committed.len() - 1;
            assert(committed.drop_last() =~= committed.remove(last));
            lemma_retained_remove(head, committed, last);
            lemma_subseq_of_remove(committed, firsts(head), last);
            assert(kept.remove(last) =~= kept.drop_last());
            assert(pool =~= kept);
            assert(retained(head, committed.drop_last()) + staged =~= pool.drop_last());
        } else {
            assert(pool.len() == 0);
        }
    } else if committed.len() + staged.len() >= capacity {
        assert(pool.len() == committed.len() + staged.len());
        if dst < committed.len() {
            lemma_retained_remove(head, committed, dst);
            lemma_subseq_of_remove(committed, firsts(head), dst);
            assert(kept.remove(dst) + staged =~= pool.remove(dst));
        } else {
            assert(kept + staged.remove(dst - committed.len()) =~= pool.remove(dst));
        }
    } else {
    }
    assert(logical_view(head, next.0, next.1) =~= logical_view(head, next.0, next.1.drop_last()).push(
        (step, v),
    ));
    assert(logical_view(head, next.0, next.1) =~= offer_logical(pool, capacity, dst, step, v));
}

} // verus!
