//! Insertions over several events.
use crate::insertion::{insert_step, ActionView, InsertEvent, InsertionView};
use crate::pool::Propagation;
use vstd::prelude::*;

verus! {

/// Where a sequence of events takes an insertion.
pub open spec fn run(
    workers: int,
    to_propagate: Propagation,
    insertion: InsertionView,
    events: Seq<InsertEvent>,
) -> (Propagation, InsertionView)
    decreases events.len(),
{
    if events.len() == 0 {
        (to_propagate, insertion)
    } else {
        let before = run(workers, to_propagate, insertion, events.drop_last());
        let step = insert_step(workers, before.0, before.1, events.last());
        (step.to_propagate, step.insertion)
    }
}

/// What is asked for along the way, event by event.
pub open spec fn actions(
    workers: int,
    to_propagate: Propagation,
    insertion: InsertionView,
    events: Seq<InsertEvent>,
) -> Seq<ActionView>
    decreases events.len(),
{
    if events.len() == 0 {
        Seq::empty()
    } else {
        let before = run(workers, to_propagate, insertion, events.drop_last());
        actions(workers, to_propagate, insertion, events.drop_last()).push(
            insert_step(workers, before.0, before.1, events.last()).action,
        )
    }
}

/// Whether the event at position `k` finds the insertion valid and waiting for
/// it.
pub open spec fn expected_at(
    workers: int,
    to_propagate: Propagation,
    insertion: InsertionView,
    events: Seq<InsertEvent>,
    k: int,
) -> bool {
    let s = run(workers, to_propagate, insertion, events.take(k)).1;
    s.valid() && s.expects(events[k])
}

/// Whether each of `events` finds the insertion valid and waiting for it.
#[verifier::opaque]
pub open spec fn all_expected(
    workers: int,
    to_propagate: Propagation,
    insertion: InsertionView,
    events: Seq<InsertEvent>,
) -> bool {
    forall|k: int|
        0 <= k < events.len() ==> #[trigger] expected_at(
            workers,
            to_propagate,
            insertion,
            events,
            k,
        )
}

/// One event more is one step more.
pub proof fn lemma_run_push(
    workers: int,
    to_propagate: Propagation,
    insertion: InsertionView,
    events: Seq<InsertEvent>,
    event: InsertEvent,
)
    ensures
        ({
            let before = run(workers, to_propagate, insertion, events);
            let step = insert_step(workers, before.0, before.1, event);
            &&& run(workers, to_propagate, insertion, events.push(event)) == (
                step.to_propagate,
                step.insertion,
            )
            &&& actions(workers, to_propagate, insertion, events.push(event)) == actions(
                workers,
                to_propagate,
                insertion,
                events,
            ).push(step.action)
        }),
{
    assert(events.push(event).drop_last() =~= events);
}

/// A single event is a single step.
pub proof fn lemma_run_one(
    workers: int,
    to_propagate: Propagation,
    insertion: InsertionView,
    event: InsertEvent,
)
    ensures
        ({
            let step = insert_step(workers, to_propagate, insertion, event);
            &&& run(workers, to_propagate, insertion, seq![event]) == (
                step.to_propagate,
                step.insertion,
            )
            &&& actions(workers, to_propagate, insertion, seq![event]) == seq![step.action]
        }),
{
    assert(seq![event] =~= Seq::<InsertEvent>::empty().push(event));
    lemma_run_push(workers, to_propagate, insertion, Seq::empty(), event);
}

/// A run in two parts.
pub proof fn lemma_run_add(
    workers: int,
    to_propagate: Propagation,
    insertion: InsertionView,
    first: Seq<InsertEvent>,
    second: Seq<InsertEvent>,
)
    ensures
        ({
            let middle = run(workers, to_propagate, insertion, first);
            &&& run(workers, to_propagate, insertion, first + second) == run(
                workers,
                middle.0,
                middle.1,
                second,
            )
            &&& actions(workers, to_propagate, insertion, first + second) == actions(
                workers,
                to_propagate,
                insertion,
                first,
            ) + actions(workers, middle.0, middle.1, second)
        }),
    decreases second.len(),
{
    let middle = run(workers, to_propagate, insertion, first);
    if second.len() == 0 {
        assert(first + second =~= first);
    } else {
        lemma_run_add(workers, to_propagate, insertion, first, second.drop_last());
        assert((first + second).drop_last() =~= first + second.drop_last());
    }
    assert(actions(workers, to_propagate, insertion, first + second) =~= actions(
        workers,
        to_propagate,
        insertion,
        first,
    ) + actions(workers, middle.0, middle.1, second));
}

/// A single event is expected if the insertion waits for it.
pub proof fn lemma_expected_one(
    workers: int,
    to_propagate: Propagation,
    insertion: InsertionView,
    event: InsertEvent,
)
    requires
        insertion.valid(),
        insertion.expects(event),
    ensures
        all_expected(workers, to_propagate, insertion, seq![event]),
{
    reveal(all_expected);
    assert(seq![event].take(0) =~= Seq::empty());
}

/// Events are expected if the first part is, and the second where the first has
/// taken the insertion.
pub proof fn lemma_expected_add(
    workers: int,
    to_propagate: Propagation,
    insertion: InsertionView,
    first: Seq<InsertEvent>,
    second: Seq<InsertEvent>,
)
    requires
        all_expected(workers, to_propagate, insertion, first),
        ({
            let middle = run(workers, to_propagate, insertion, first);
            all_expected(workers, middle.0, middle.1, second)
        }),
    ensures
        all_expected(workers, to_propagate, insertion, first + second),
{
    reveal(all_expected);
    let both = first + second;
    let middle = run(workers, to_propagate, insertion, first);
    assert forall|k: int| 0 <= k < both.len() implies #[trigger] expected_at(
        workers,
        to_propagate,
        insertion,
        both,
        k,
    ) by {
        if k < first.len() {
            assert(expected_at(workers, to_propagate, insertion, first, k));
            assert(both.take(k) =~= first.take(k));
        } else {
            let i = k - first.len();
            assert(expected_at(workers, middle.0, middle.1, second, i));
            assert(both.take(k) =~= first + second.take(i));
            lemma_run_add(workers, to_propagate, insertion, first, second.take(i));
        }
    }
}

/// Events that are expected, position by position.
pub proof fn lemma_expected_each(
    workers: int,
    to_propagate: Propagation,
    insertion: InsertionView,
    events: Seq<InsertEvent>,
)
    requires
        all_expected(workers, to_propagate, insertion, events),
    ensures
        forall|k: int|
            0 <= k < events.len() ==> {
                let s = run(workers, to_propagate, insertion, #[trigger] events.take(k)).1;
                s.valid() && s.expects(events[k])
            },
{
    reveal(all_expected);
    assert forall|k: int| 0 <= k < events.len() implies ({
        let s = run(workers, to_propagate, insertion, #[trigger] events.take(k)).1;
        s.valid() && s.expects(events[k])
    }) by {
        assert(expected_at(workers, to_propagate, insertion, events, k));
    }
}

} // verus!
