//! What each step of an insertion comes to, in terms of what it is told and what
//! it asks for.
use crate::insertion::{insert_step, ActionView, InsertAction, InsertEvent, InsertionView, Stage};
use crate::pool::Propagation;
use crate::recovery::SegmentOutcome;
use crate::recovery_laws::segments_cover;
use crate::runs::{actions, run};
use crate::types::{TransactionWithSignature, H256};
use crate::u256::decimal;
use vstd::prelude::*;

verus! {

/// No transaction is lost on the way to recovery. Those that one action hands
/// out, taken in order, are those that are not cached. There are workers to hand
/// them to if and only if there are eight for each, and then the shares of two
/// workers differ by one at the most. As many segments are awaited as are handed
/// out.
pub proof fn every_transaction_goes_to_recovery(
    workers: int,
    to_propagate: Propagation,
    insertion: InsertionView,
    txs: Vec<TransactionWithSignature>,
)
    requires
        0 < workers,
    ensures
        ({
            let step = insert_step(workers, to_propagate, insertion, InsertEvent::Uncached(txs));
            let after = step.insertion;
            &&& match step.action {
                ActionView::RecoverInline(all) => {
                    &&& all == txs@
                    &&& txs@.len() < workers * 8
                    &&& after.awaited == 1
                    &&& after.signed_trans.len() == 1
                },
                ActionView::RecoverOnWorkers(parts) => {
                    &&& parts.flatten() == txs@
                    &&& txs@.len() >= workers * 8
                    &&& parts.len() == workers
                    &&& after.awaited == workers
                    &&& after.signed_trans.len() == workers
                    &&& forall|k: int, l: int|
                        0 <= k < l < workers ==> (#[trigger] parts[l]).len() <= (
                        #[trigger] parts[k]).len() <= parts[l].len() + 1
                },
                _ => false,
            }
            &&& forall|k: int|
                0 <= k < after.signed_trans.len() ==> (#[trigger] after.signed_trans[k]).len() == 0
            &&& after.stage == Stage::Recovering
            &&& step.to_propagate == to_propagate
            &&& after.queue == insertion.queue
            &&& after.next == insertion.next
            &&& after.failures == insertion.failures
            &&& after.passed == insertion.passed
        }),
{
    segments_cover(txs@, workers);
}

/// What comes of a segment is kept, in the place of that segment, and so are its
/// failures; of a hash that has failed before, the new reason stays. When the
/// last segment has come in, the transactions stand in a row, segment after
/// segment, and the account state is asked for.
pub proof fn every_segment_is_kept(
    workers: int,
    to_propagate: Propagation,
    insertion: InsertionView,
    index: usize,
    outcome: SegmentOutcome,
)
    requires
        0 < insertion.awaited,
        index < insertion.signed_trans.len(),
        insertion.stage == Stage::Recovering,
    ensures
        ({
            let step = insert_step(
                workers,
                to_propagate,
                insertion,
                InsertEvent::Recovered { index, outcome },
            );
            let after = step.insertion;
            let parts = insertion.signed_trans.update(index as int, outcome.signed@);
            &&& step.to_propagate == to_propagate
            &&& after.passed == insertion.passed
            &&& after.awaited == insertion.awaited - 1
            &&& forall|h: H256| #[trigger]
                after.failures.contains_key(h) <==> insertion.failures.contains_key(h)
                    || outcome.failed@.contains_key(h)
            &&& forall|h: H256| #[trigger]
                after.failures.contains_key(h) ==> after.failures[h] == (
                if outcome.failed@.contains_key(h) {
                    outcome.failed@[h]@
                } else {
                    insertion.failures[h]
                })
            &&& if after.awaited > 0 {
                &&& step.action == ActionView::AwaitSegment
                &&& after.stage == Stage::Recovering
                &&& after.signed_trans == parts
                &&& after.queue == insertion.queue
                &&& after.next == insertion.next
            } else {
                &&& step.action == ActionView::Open
                &&& after.stage == Stage::Opening
                &&& after.signed_trans.len() == 0
                &&& after.queue == parts.flatten()
                &&& after.next == 0
            }
        }),
{
}

/// With the account state at hand it is the turn of the first transaction, if
/// there is one.
pub proof fn turns_begin_with_the_first(
    workers: int,
    to_propagate: Propagation,
    insertion: InsertionView,
)
    ensures
        ({
            let step = insert_step(workers, to_propagate, insertion, InsertEvent::Opened);
            let after = step.insertion;
            &&& step.to_propagate == to_propagate
            &&& after.next == 0
            &&& after.queue == insertion.queue
            &&& after.signed_trans == insertion.signed_trans
            &&& after.awaited == insertion.awaited
            &&& after.failures == insertion.failures
            &&& after.passed == insertion.passed
            &&& insertion.queue.len() > 0 ==> after.stage == Stage::Caching && step.action
                == ActionView::Cache(insertion.queue[0])
            &&& insertion.queue.len() == 0 ==> after.stage == Stage::Finished && step.action
                == ActionView::Report
        }),
{
}

/// What a turn comes to. A transaction fails for the first rule that it breaks
/// as soon as that can be told, for its form, or because the deferred pool does
/// not take it; its hash is then among the failures with the reason. It passes
/// when the deferred pool has taken it, and is then to be passed on, unless one
/// with its hash is. Either way it is the turn of the next one. Otherwise the
/// next thing is found out about it, and nothing else changes.
pub proof fn every_turn_ends_as_it_must(
    workers: int,
    to_propagate: Propagation,
    insertion: InsertionView,
    event: InsertEvent,
)
    requires
        0 <= insertion.next < insertion.queue.len(),
        event is Cached || event is Measured || event is Formed || event is Added,
    ensures
        ({
            let step = insert_step(workers, to_propagate, insertion, event);
            let after = step.insertion;
            let tx = insertion.queue[insertion.next];
            let hash = tx.transaction.hash;
            let gas = tx.transaction.gas@;
            let gas_price = tx.transaction.gas_price@;
            let too_much = "transaction gas "@ + decimal(gas) + " exceeds the maximum value "@
                + decimal(100_000_000);
            let reason: Option<Seq<char>> = match event {
                InsertEvent::Cached => if gas > 100_000_000 {
                    Some(too_much)
                } else {
                    None
                },
                InsertEvent::Measured(needed) => if gas > 100_000_000 {
                    Some(too_much)
                } else if gas < (needed as usize) {
                    Some(
                        "transaction gas "@ + decimal(gas) + " less than intrinsic gas "@ + decimal(
                            needed as nat,
                        ),
                    )
                } else if gas_price < 1 {
                    Some(
                        "transaction gas price "@ + decimal(gas_price)
                            + " less than the minimum value "@ + decimal(1),
                    )
                } else {
                    None
                },
                InsertEvent::Formed(Err(e)) => Some(e@),
                InsertEvent::Added(Err(e)) => Some(e@),
                _ => None,
            };
            let passes = event is Added && reason is None;
            &&& after.queue == insertion.queue
            &&& after.signed_trans == insertion.signed_trans
            &&& after.awaited == insertion.awaited
            &&& after.failures == (match reason {
                Some(e) => insertion.failures.insert(hash, e),
                None => insertion.failures,
            })
            &&& after.passed == (if passes {
                insertion.passed.push(tx)
            } else {
                insertion.passed
            })
            &&& step.to_propagate == (if passes && !to_propagate.contains_key(hash) {
                to_propagate.insert(hash, tx)
            } else {
                to_propagate
            })
            &&& if reason is Some || passes {
                &&& after.next == insertion.next + 1
                &&& if after.next < insertion.queue.len() {
                    &&& after.stage == Stage::Caching
                    &&& step.action == ActionView::Cache(insertion.queue[after.next])
                } else {
                    &&& after.stage == Stage::Finished
                    &&& step.action == ActionView::Report
                }
            } else {
                &&& after.next == insertion.next
                &&& match step.action {
                    ActionView::Measure { transaction, is_create } => {
                        &&& event is Cached
                        &&& after.stage == Stage::Measuring
                        &&& transaction == tx
                        &&& is_create <==> tx.transaction.action is Create
                    },
                    ActionView::CheckForm(transaction) => {
                        &&& event is Measured
                        &&& after.stage == Stage::Forming
                        &&& transaction == tx
                    },
                    ActionView::Add(request) => {
                        &&& event is Formed
                        &&& after.stage == Stage::Adding
                        &&& request.transaction == tx
                        &&& !request.packed
                        &&& !request.force
                    },
                    _ => false,
                }
            }
        }),
{
}

/// Whatever an insertion is told: what it offers to the deferred pool is not
/// packed, and not forced on it.
pub proof fn no_offer_is_packed_or_forced(
    workers: int,
    to_propagate: Propagation,
    insertion: InsertionView,
    event: InsertEvent,
)
    ensures
        insert_step(workers, to_propagate, insertion, event).action matches ActionView::Add(request)
            ==> !request.packed && !request.force,
{
}

/// Whatever an insertion is told: a transaction is measured as a creation if and
/// only if it creates a contract.
pub proof fn creations_are_measured_as_such(
    workers: int,
    to_propagate: Propagation,
    insertion: InsertionView,
    event: InsertEvent,
)
    ensures
        insert_step(workers, to_propagate, insertion, event).action matches ActionView::Measure {
            transaction,
            is_create,
        } ==> (is_create <==> transaction.transaction.action is Create),
{
}

/// In all of a run, whatever its events: nothing is offered to the deferred pool
/// as packed or by force, and a transaction is measured as a creation if and only
/// if it creates a contract.
pub proof fn a_run_offers_and_measures_rightly(
    workers: int,
    to_propagate: Propagation,
    insertion: InsertionView,
    events: Seq<InsertEvent>,
)
    ensures
        actions(workers, to_propagate, insertion, events).len() == events.len(),
        forall|k: int|
            0 <= k < events.len() ==> match #[trigger] actions(
                workers,
                to_propagate,
                insertion,
                events,
            )[k] {
                ActionView::Add(request) => !request.packed && !request.force,
                ActionView::Measure { transaction, is_create } => is_create
                    <==> transaction.transaction.action is Create,
                _ => true,
            },
    decreases events.len(),
{
    if events.len() > 0 {
        a_run_offers_and_measures_rightly(
            workers,
            to_propagate,
            insertion,
            events.drop_last(),
        );
        let before = run(workers, to_propagate, insertion, events.drop_last());
        no_offer_is_packed_or_forced(workers, before.0, before.1, events.last());
        creations_are_measured_as_such(workers, before.0, before.1, events.last());
    }
}

/// A new insertion waits for what is not cached, and has nothing in it.
pub proof fn a_fresh_insertion_is_empty()
    ensures
        InsertionView::fresh().stage == Stage::Start,
        InsertionView::fresh().signed_trans.len() == 0,
        InsertionView::fresh().awaited == 0,
        InsertionView::fresh().queue.len() == 0,
        InsertionView::fresh().next == 0,
        forall|h: H256| !#[trigger] InsertionView::fresh().failures.contains_key(h),
        InsertionView::fresh().passed.len() == 0,
{
}

/// An event is expected at the stage that waits for it, and at no other. A
/// segment has to be one of those that were handed out.
pub proof fn each_stage_waits_for_one_event(insertion: InsertionView, event: InsertEvent)
    ensures
        insertion.expects(event) <==> match insertion.stage {
            Stage::Start => event is Uncached,
            Stage::Recovering => event matches InsertEvent::Recovered { index, .. } && index
                < insertion.signed_trans.len(),
            Stage::Opening => event is Opened,
            Stage::Caching => event is Cached,
            Stage::Measuring => event is Measured,
            Stage::Forming => event is Formed,
            Stage::Adding => event is Added,
            Stage::Finished => false,
        },
{
}

/// Between two steps, at each stage, an insertion awaits a segment, stands at the
/// begin of the queue, has the turn in the queue, or has reached its end. Nothing
/// more is asked of it.
pub proof fn validity_is_about_the_turn(insertion: InsertionView)
    ensures
        insertion.valid() <==> match insertion.stage {
            Stage::Start => true,
            Stage::Recovering => 0 < insertion.awaited,
            Stage::Opening => insertion.next == 0,
            Stage::Finished => insertion.next == insertion.queue.len(),
            _ => 0 <= insertion.next < insertion.queue.len(),
        },
{
}

/// An action is seen as it is: with the transactions that it hands out, in their
/// order and by segment, and with every mark of what it asks for.
pub proof fn an_action_is_seen_as_it_is(action: InsertAction)
    ensures
        match action {
            InsertAction::RecoverInline(txs) => action@ == ActionView::RecoverInline(txs@),
            InsertAction::RecoverOnWorkers(parts) => {
                &&& action@ matches ActionView::RecoverOnWorkers(seen)
                &&& seen.len() == parts@.len()
                &&& forall|k: int| 0 <= k < seen.len() ==> #[trigger] seen[k] == parts@[k]@
            },
            InsertAction::AwaitSegment => action@ == ActionView::AwaitSegment,
            InsertAction::Open => action@ == ActionView::Open,
            InsertAction::Cache(tx) => action@ == ActionView::Cache(tx),
            InsertAction::Measure { transaction, is_create } => action@ == (ActionView::Measure {
                transaction,
                is_create,
            }),
            InsertAction::CheckForm(tx) => action@ == ActionView::CheckForm(tx),
            InsertAction::Add(request) => {
                &&& action@ matches ActionView::Add(seen)
                &&& seen.transaction == request.transaction
                &&& seen.packed == request.packed
                &&& seen.force == request.force
            },
            InsertAction::Report => action@ == ActionView::Report,
        },
{
}

} // verus!
