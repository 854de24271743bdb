//! Recovering signers comes out the same however the work is split and in
//! whatever order the workers are done.
use crate::insertion::{insert_step, ActionView, InsertEvent, InsertionView, Stage};
use crate::pool::Propagation;
use crate::recovery::{
    lemma_segment_bounds, recovered, recovery_failure, segment, segment_start, segments, Recovered,
    SegmentOutcome, INLINE_LIMIT_PER_WORKER,
};
use crate::runs::{
    actions, all_expected, lemma_expected_add, lemma_expected_one, lemma_run_add, lemma_run_one,
    lemma_run_push, run,
};
use crate::types::{Public, SignedTransaction, TransactionWithSignature, H256};
use std::sync::Arc;
use vstd::prelude::*;

verus! {

/// Splitting transactions among workers loses none, doubles none and keeps
/// their order. There is a segment for each worker, no segment is larger than
/// another by more than one, and the larger ones come first.
pub proof fn segments_cover(txs: Seq<TransactionWithSignature>, workers: int)
    requires
        0 < workers,
    ensures
        segments(txs, workers).len() == workers,
        segments(txs, workers).flatten() == txs,
        forall|k: int|
            0 <= k < workers ==> (#[trigger] segments(txs, workers)[k]).len() == txs.len() as int
                / workers + (if k < txs.len() as int % workers {
                1int
            } else {
                0
            }),
{
    let n = txs.len() as int;
    let parts = segments(txs, workers);
    assert forall|k: int| 0 <= k < workers implies (#[trigger] parts[k]).len() == n / workers + (
    if k < n % workers {
        1int
    } else {
        0
    }) by {
        lemma_segment_bounds(n, workers, k);
    }
    lemma_segments_prefix(txs, workers, workers);
    lemma_segment_bounds(n, workers, 0);
    assert(parts.take(workers) =~= parts);
    assert(txs.take(n) =~= txs);
}

proof fn lemma_segments_prefix(txs: Seq<TransactionWithSignature>, workers: int, k: int)
    requires
        0 < workers,
        0 <= k <= workers,
    ensures
        0 <= segment_start(txs.len() as int, workers, k) <= txs.len(),
        segments(txs, workers).take(k).flatten() == txs.take(
            segment_start(txs.len() as int, workers, k),
        ),
    decreases k,
{
    let n = txs.len() as int;
    let parts = segments(txs, workers);
    lemma_segment_bounds(n, workers, 0);
    if k == 0 {
        assert(parts.take(0).flatten() =~= txs.take(0));
    } else {
        lemma_segments_prefix(txs, workers, k - 1);
        lemma_segment_bounds(n, workers, k - 1);
        assert(parts.take(k) =~= parts.take(k - 1).push(parts[k - 1]));
        parts.take(k - 1).lemma_flatten_push(parts[k - 1]);
        assert(txs.take(segment_start(n, workers, k)) =~= txs.take(
            segment_start(n, workers, k - 1),
        ) + parts[k - 1]);
    }
}

/// Recovering the signers of two batches one after the other is recovering
/// those of both in one go.
pub proof fn recovery_is_additive(
    first: Seq<TransactionWithSignature>,
    first_replies: Seq<Result<Public, String>>,
    second: Seq<TransactionWithSignature>,
    second_replies: Seq<Result<Public, String>>,
)
    requires
        first.len() == first_replies.len(),
        second.len() == second_replies.len(),
    ensures
        ({
            let a = recovered(first, first_replies);
            let b = recovered(second, second_replies);
            recovered(first + second, first_replies + second_replies) == (Recovered {
                signed: a.signed + b.signed,
                failed: a.failed.union_prefer_right(b.failed),
            })
        }),
    decreases second.len(),
{
    let a = recovered(first, first_replies);
    let b = recovered(second, second_replies);
    let goal = Recovered {
        signed: a.signed + b.signed,
        failed: a.failed.union_prefer_right(b.failed),
    };
    if second.len() == 0 {
        assert(first + second =~= first);
        assert(first_replies + second_replies =~= first_replies);
        assert(goal =~= a);
    } else {
        recovery_is_additive(
            first,
            first_replies,
            second.drop_last(),
            second_replies.drop_last(),
        );
        assert((first + second).drop_last() =~= first + second.drop_last());
        assert((first_replies + second_replies).drop_last() =~= first_replies
            + second_replies.drop_last());
        assert(recovered(first + second, first_replies + second_replies) =~= goal);
    }
}

/// Whether the recovery of the signer of `txs[i]` failed and its hash is `h`.
pub open spec fn fails(
    txs: Seq<TransactionWithSignature>,
    replies: Seq<Result<Public, String>>,
    i: int,
    h: H256,
) -> bool {
    0 <= i < txs.len() && txs[i].hash == h && replies[i] is Err
}

/// Whether the recovery of the signer of `txs[i]`, with the hash `h`, failed for
/// a reason that is reported as `e`.
pub open spec fn gives_reason(
    txs: Seq<TransactionWithSignature>,
    replies: Seq<Result<Public, String>>,
    i: int,
    h: H256,
    e: Seq<char>,
) -> bool {
    fails(txs, replies, i, h) && e == recovery_failure(replies[i]->Err_0@)
}

/// The hashes that recovery reports as failed are those of the transactions
/// whose signer could not be recovered, and the reason is that of one of them.
pub proof fn recovery_reports_failures(
    txs: Seq<TransactionWithSignature>,
    replies: Seq<Result<Public, String>>,
    h: H256,
)
    requires
        txs.len() == replies.len(),
    ensures
        ({
            let failed = recovered(txs, replies).failed;
            &&& failed.contains_key(h) <==> exists|i: int| fails(txs, replies, i, h)
            &&& failed.contains_key(h) ==> exists|i: int|
                gives_reason(txs, replies, i, h, failed[h])
        }),
    decreases txs.len(),
{
    if txs.len() > 0 {
        let last = txs.len() - 1;
        let t = txs.drop_last();
        let r = replies.drop_last();
        recovery_reports_failures(t, r, h);
        let failed = recovered(txs, replies).failed;
        let before = recovered(t, r).failed;
        if fails(txs, replies, last, h) {
            assert(gives_reason(txs, replies, last, h, failed[h]));
        } else {
            assert(failed.contains_key(h) == before.contains_key(h));
            if before.contains_key(h) {
                let i = choose|i: int| gives_reason(t, r, i, h, before[h]);
                assert(fails(txs, replies, i, h));
                assert(gives_reason(txs, replies, i, h, failed[h]));
            }
            assert forall|i: int| fails(txs, replies, i, h) implies fails(t, r, i, h) by {}
        }
    }
}

/// Among how many workers `n` transactions are split, if there are `workers`
/// workers; one stands for no split at all.
pub open spec fn workers_used(n: int, workers: int) -> int {
    if n < workers * INLINE_LIMIT_PER_WORKER {
        1
    } else {
        workers
    }
}

/// The segments come in, in the order `order`.
pub open spec fn arrivals(outcomes: Seq<SegmentOutcome>, order: Seq<usize>) -> Seq<InsertEvent> {
    order.map_values(
        |k: usize| InsertEvent::Recovered { index: k, outcome: outcomes[k as int] },
    )
}

/// The events up to the point where every signer has been recovered.
pub open spec fn recovery_events(
    uncached: Vec<TransactionWithSignature>,
    outcomes: Seq<SegmentOutcome>,
    order: Seq<usize>,
) -> Seq<InsertEvent> {
    seq![InsertEvent::Uncached(uncached)] + arrivals(outcomes, order)
}

/// Whether `order` names each of `count` segments once.
pub open spec fn names_each_once(order: Seq<usize>, count: int) -> bool {
    &&& order.len() == count
    &&& forall|i: int| 0 <= i < count ==> #[trigger] order[i] < count
    &&& forall|k: usize| k < count ==> #[trigger] order.contains(k)
}

/// Whether position `i` is in segment `k`, if `n` transactions are split into
/// `count` segments.
pub open spec fn in_segment(n: int, count: int, k: int, i: int) -> bool {
    0 <= k < count && segment_start(n, count, k) <= i < segment_start(n, count, k + 1)
}

/// Whether failures with the same hash in different ones of `count` segments
/// have the same reason.
pub open spec fn consistent(
    txs: Seq<TransactionWithSignature>,
    replies: Seq<Result<Public, String>>,
    count: int,
) -> bool {
    forall|i: int, j: int, h: H256, k: int|
        {
            &&& #[trigger] fails(txs, replies, i, h)
            &&& #[trigger] fails(txs, replies, j, h)
            &&& #[trigger] in_segment(txs.len() as int, count, k, i)
            &&& !in_segment(txs.len() as int, count, k, j)
        } ==> replies[i]->Err_0@ == replies[j]->Err_0@
}

/// Whether segments that report a failure of the same hash report the same
/// reason.
pub open spec fn agree(outcomes: Seq<SegmentOutcome>) -> bool {
    forall|k: int, l: int, h: H256|
        {
            &&& 0 <= k < outcomes.len()
            &&& 0 <= l < outcomes.len()
            &&& #[trigger] outcomes[k]@.failed.contains_key(h)
            &&& #[trigger] outcomes[l]@.failed.contains_key(h)
        } ==> outcomes[k]@.failed[h] == outcomes[l]@.failed[h]
}

/// The transactions that an action hands out for recovery, by segment.
pub open spec fn handed(action: ActionView) -> Seq<Seq<TransactionWithSignature>> {
    match action {
        ActionView::RecoverInline(txs) => seq![txs],
        ActionView::RecoverOnWorkers(parts) => parts,
        _ => Seq::empty(),
    }
}

/// The transactions that an insertion hands out for recovery, by segment, once
/// it has been told that `uncached` are not cached.
pub open spec fn handed_out(
    workers: int,
    to_propagate: Propagation,
    uncached: Vec<TransactionWithSignature>,
) -> Seq<Seq<TransactionWithSignature>> {
    handed(
        insert_step(
            workers,
            to_propagate,
            InsertionView::fresh(),
            InsertEvent::Uncached(uncached),
        ).action,
    )
}

/// Whether each segment that was handed out was worked through, with its share
/// of the replies.
pub open spec fn worked_through(
    handed: Seq<Seq<TransactionWithSignature>>,
    replies: Seq<Result<Public, String>>,
    outcomes: Seq<SegmentOutcome>,
) -> bool {
    &&& outcomes.len() == handed.len()
    &&& forall|k: int|
        0 <= k < handed.len() ==> (#[trigger] outcomes[k])@ == recovered(
            handed[k],
            segment(replies, handed.len() as int, k),
        )
}

/// An insertion whose signers have been recovered with the result `all`.
pub open spec fn all_recovered(all: Recovered) -> InsertionView {
    InsertionView {
        stage: Stage::Opening,
        queue: all.signed,
        failures: all.failed,
        ..InsertionView::fresh()
    }
}

/// Whether each reason in `failures` is that of a transaction with the hash.
pub open spec fn reasons_given(
    failures: Map<H256, Seq<char>>,
    txs: Seq<TransactionWithSignature>,
    replies: Seq<Result<Public, String>>,
) -> bool {
    forall|h: H256| #[trigger]
        failures.contains_key(h) ==> exists|i: int| gives_reason(txs, replies, i, h, failures[h])
}

/// Whether segment `k` reports a failure of `h` for the reason `e`.
pub open spec fn reports(outcomes: Seq<SegmentOutcome>, k: int, h: H256, e: Seq<char>) -> bool {
    &&& 0 <= k < outcomes.len()
    &&& outcomes[k]@.failed.contains_key(h)
    &&& outcomes[k]@.failed[h] == e
}

/// Whether each reason in `failures` is reported by a segment.
pub open spec fn all_reported(failures: Map<H256, Seq<char>>, outcomes: Seq<SegmentOutcome>) -> bool {
    forall|h: H256| #[trigger]
        failures.contains_key(h) ==> exists|k: int| reports(outcomes, k, h, failures[h])
}

/// What is asked for until every signer has been recovered.
pub open spec fn recovery_asks(txs: Seq<TransactionWithSignature>, workers: int) -> Seq<
    ActionView,
> {
    let first = if txs.len() < workers * INLINE_LIMIT_PER_WORKER {
        ActionView::RecoverInline(txs)
    } else {
        ActionView::RecoverOnWorkers(segments(txs, workers))
    };
    seq![first] + awaits(workers_used(txs.len() as int, workers) - 1) + seq![ActionView::Open]
}

/// Waiting for `n` more segments.
pub open spec fn awaits(n: int) -> Seq<ActionView> {
    Seq::new(n as nat, |i: int| ActionView::AwaitSegment)
}

/// Whether the signers are recovered on one thread or on many, and whichever
/// worker is done first: the insertion goes on with the same transactions in
/// the same order, and with failures for the same hashes. Each reason is that
/// of a failed transaction with the hash. Each of `uncached` is recovered with
/// the reply at its position in `replies`.
pub proof fn recovery_hands_on_the_same_transactions(
    workers: usize,
    to_propagate: Propagation,
    uncached: Vec<TransactionWithSignature>,
    replies: Seq<Result<Public, String>>,
    outcomes: Seq<SegmentOutcome>,
    order: Seq<usize>,
)
    requires
        0 < workers,
        replies.len() == uncached@.len(),
        worked_through(handed_out(workers as int, to_propagate, uncached), replies, outcomes),
        names_each_once(order, workers_used(uncached@.len() as int, workers as int)),
    ensures
        ({
            let events = recovery_events(uncached, outcomes, order);
            let end = run(workers as int, to_propagate, InsertionView::fresh(), events);
            let all = recovered(uncached@, replies);
            &&& end.0 == to_propagate
            &&& end.1 == (InsertionView { failures: end.1.failures, ..all_recovered(all) })
            &&& end.1.failures.dom() == all.failed.dom()
            &&& reasons_given(end.1.failures, uncached@, replies)
        }),
{
    lemma_recovery(workers, to_propagate, uncached, replies, outcomes, order);
}

/// Segments agree if failures with the same hash in different segments have the
/// same reason. One segment always agrees with itself.
pub proof fn consistent_failures_make_segments_agree(
    txs: Seq<TransactionWithSignature>,
    replies: Seq<Result<Public, String>>,
    outcomes: Seq<SegmentOutcome>,
    count: int,
)
    requires
        0 < count,
        replies.len() == txs.len(),
        worked_through(segments(txs, count), replies, outcomes),
        count == 1 || consistent(txs, replies, count),
    ensures
        agree(outcomes),
{
    let n = txs.len() as int;
    assert forall|k: int, l: int, h: H256|
        {
            &&& 0 <= k < outcomes.len()
            &&& 0 <= l < outcomes.len()
            &&& #[trigger] outcomes[k]@.failed.contains_key(h)
            &&& #[trigger] outcomes[l]@.failed.contains_key(h)
        } implies outcomes[k]@.failed[h] == outcomes[l]@.failed[h] by {
        if k != l {
            let i = lemma_reason_in_segment(txs, replies, outcomes, count, k, h);
            let j = lemma_reason_in_segment(txs, replies, outcomes, count, l, h);
            if k < l {
                lemma_starts_ascend(n, count, k + 1, l);
            } else {
                lemma_starts_ascend(n, count, l + 1, k);
            }
            assert(!in_segment(n, count, k, j));
        }
    }
}

/// Whether the signers are recovered on one thread or on many, and whichever
/// worker is done first, the insertion has the same failures with the same
/// reasons too, if the segments agree on the reasons.
pub proof fn recovery_does_not_depend_on_the_split(
    workers: usize,
    to_propagate: Propagation,
    uncached: Vec<TransactionWithSignature>,
    replies: Seq<Result<Public, String>>,
    outcomes: Seq<SegmentOutcome>,
    order: Seq<usize>,
)
    requires
        0 < workers,
        replies.len() == uncached@.len(),
        worked_through(handed_out(workers as int, to_propagate, uncached), replies, outcomes),
        agree(outcomes),
        names_each_once(order, workers_used(uncached@.len() as int, workers as int)),
    ensures
        run(
            workers as int,
            to_propagate,
            InsertionView::fresh(),
            recovery_events(uncached, outcomes, order),
        ) == (to_propagate, all_recovered(recovered(uncached@, replies))),
{
    let all = recovered(uncached@, replies);
    lemma_recovery(workers, to_propagate, uncached, replies, outcomes, order);
    let end = run(
        workers as int,
        to_propagate,
        InsertionView::fresh(),
        recovery_events(uncached, outcomes, order),
    );
    assert forall|h: H256| #[trigger] all.failed.contains_key(h) implies all.failed[h]
        == end.1.failures[h] by {
        assert(end.1.failures.dom().contains(h));
        assert(end.1.failures.contains_key(h));
        let k = choose|k: int| reports(outcomes, k, h, all.failed[h]);
        let l = choose|l: int| reports(outcomes, l, h, end.1.failures[h]);
        assert(outcomes[k]@.failed.contains_key(h) && outcomes[l]@.failed.contains_key(h));
    }
    assert(end.1.failures =~= all.failed);
}

/// What is handed out for recovery is all that is not cached, in its order, and
/// in as many segments as there are workers to use.
pub proof fn everything_is_handed_out(
    workers: int,
    to_propagate: Propagation,
    uncached: Vec<TransactionWithSignature>,
)
    requires
        0 < workers,
    ensures
        handed_out(workers, to_propagate, uncached).flatten() == uncached@,
        handed_out(workers, to_propagate, uncached).len() == (if uncached@.len() < workers * 8 {
            1
        } else {
            workers
        }),
        handed_out(workers, to_propagate, uncached) == segments(
            uncached@,
            workers_used(uncached@.len() as int, workers),
        ),
{
    let txs = uncached@;
    let count = workers_used(txs.len() as int, workers);
    segments_cover(txs, count);
    if txs.len() < workers * INLINE_LIMIT_PER_WORKER {
        lemma_segment_bounds(txs.len() as int, 1, 0);
        assert(segment(txs, 1, 0) =~= txs);
        assert(segments(txs, 1) =~= seq![txs]);
    }
}

/// What is asked for until every signer has been recovered: the recoveries, the
/// segments that are still out, and then the account state.
pub proof fn recovery_asks_for_each_segment(
    workers: usize,
    to_propagate: Propagation,
    uncached: Vec<TransactionWithSignature>,
    replies: Seq<Result<Public, String>>,
    outcomes: Seq<SegmentOutcome>,
    order: Seq<usize>,
)
    requires
        0 < workers,
        replies.len() == uncached@.len(),
        worked_through(handed_out(workers as int, to_propagate, uncached), replies, outcomes),
        names_each_once(order, workers_used(uncached@.len() as int, workers as int)),
    ensures
        actions(
            workers as int,
            to_propagate,
            InsertionView::fresh(),
            recovery_events(uncached, outcomes, order),
        ) == recovery_asks(uncached@, workers as int),
{
    lemma_recovery(workers, to_propagate, uncached, replies, outcomes, order);
}

/// Until every signer has been recovered, each event finds the insertion waiting
/// for it.
pub proof fn recovery_events_are_expected(
    workers: usize,
    to_propagate: Propagation,
    uncached: Vec<TransactionWithSignature>,
    replies: Seq<Result<Public, String>>,
    outcomes: Seq<SegmentOutcome>,
    order: Seq<usize>,
)
    requires
        0 < workers,
        replies.len() == uncached@.len(),
        worked_through(handed_out(workers as int, to_propagate, uncached), replies, outcomes),
        names_each_once(order, workers_used(uncached@.len() as int, workers as int)),
    ensures
        all_expected(
            workers as int,
            to_propagate,
            InsertionView::fresh(),
            recovery_events(uncached, outcomes, order),
        ),
{
    lemma_recovery(workers, to_propagate, uncached, replies, outcomes, order);
}

proof fn lemma_recovery(
    workers: usize,
    to_propagate: Propagation,
    uncached: Vec<TransactionWithSignature>,
    replies: Seq<Result<Public, String>>,
    outcomes: Seq<SegmentOutcome>,
    order: Seq<usize>,
)
    requires
        0 < workers,
        replies.len() == uncached@.len(),
        worked_through(handed_out(workers as int, to_propagate, uncached), replies, outcomes),
        names_each_once(order, workers_used(uncached@.len() as int, workers as int)),
    ensures
        ({
            let events = recovery_events(uncached, outcomes, order);
            let end = run(workers as int, to_propagate, InsertionView::fresh(), events);
            let all = recovered(uncached@, replies);
            &&& end.0 == to_propagate
            &&& end.1 == (InsertionView { failures: end.1.failures, ..all_recovered(all) })
            &&& end.1.failures.dom() == all.failed.dom()
            &&& reasons_given(end.1.failures, uncached@, replies)
            &&& all_reported(end.1.failures, outcomes)
            &&& all_reported(all.failed, outcomes)
            &&& all_expected(workers as int, to_propagate, InsertionView::fresh(), events)
            &&& actions(workers as int, to_propagate, InsertionView::fresh(), events)
                == recovery_asks(uncached@, workers as int)
        }),
{
    let txs = uncached@;
    let n = txs.len() as int;
    let workers = workers as int;
    let count = workers_used(n, workers);
    let all = recovered(txs, replies);
    let start = seq![InsertEvent::Uncached(uncached)];
    let handed = InsertionView::fresh().hand_out(count);
    let events = arrivals(outcomes, order);
    everything_is_handed_out(workers, to_propagate, uncached);
    lemma_run_one(
        workers,
        to_propagate,
        InsertionView::fresh(),
        InsertEvent::Uncached(uncached),
    );
    lemma_run_add(workers, to_propagate, InsertionView::fresh(), start, events);
    let j = count - 1;
    lemma_arrivals(workers, to_propagate, txs, replies, outcomes, order, count, j);
    assert(arrivals(outcomes, order.take(j)) =~= events.drop_last());
    let before = run(workers, to_propagate, handed, events.drop_last()).1;
    let k = order[j] as int;
    let end = before.arrive(k, outcomes[k]@);
    let parts = before.signed_trans.update(k, outcomes[k]@.signed);
    let expected = Seq::new(count as nat, |i: int| outcomes[i]@.signed);
    assert forall|i: int| 0 <= i < count implies parts[i] == #[trigger] expected[i] by {
        assert(order.contains(i as usize));
        let at = choose|at: int| 0 <= at < order.len() && order[at] == i as usize;
        if at < j {
            assert(before.signed_trans[order[at] as int] == outcomes[order[at] as int]@.signed);
        }
    }
    assert(parts =~= expected);
    lemma_signed_prefix(txs, replies, outcomes, count, count);
    assert(expected.take(count) =~= expected);
    lemma_segment_bounds(n, count, 0);
    assert(txs.take(n) =~= txs);
    assert(replies.take(n) =~= replies);
    lemma_part_of_failures(txs, replies, outcomes, count, k);
    lemma_all_reported(before.failures, outcomes, k);
    lemma_reported_reasons(end.failures, txs, replies, outcomes, count);
    assert(end.failures.dom() =~= all.failed.dom()) by {
        assert forall|h: H256| all.failed.contains_key(h) implies #[trigger] end.failures.contains_key(
            h,
        ) by {
            let p = lemma_failure_has_a_segment(txs, replies, outcomes, count, h);
            assert(order.contains(p as usize));
            let at = choose|at: int| 0 <= at < order.len() && order[at] == p as usize;
            if at < j {
                assert(outcomes[order[at] as int]@.failed.dom().subset_of(before.failures.dom()));
            }
        }
    }
    assert(end =~= InsertionView { failures: end.failures, ..all_recovered(all) });
    lemma_run_push(workers, to_propagate, handed, events.drop_last(), events.last());
    assert(events.drop_last().push(events.last()) =~= events);
    lemma_expected_one(workers, to_propagate, before, events.last());
    lemma_expected_add(
        workers,
        to_propagate,
        handed,
        events.drop_last(),
        seq![events.last()],
    );
    assert(events.drop_last() + seq![events.last()] =~= events);
    lemma_expected_one(
        workers,
        to_propagate,
        InsertionView::fresh(),
        InsertEvent::Uncached(uncached),
    );
    lemma_expected_add(workers, to_propagate, InsertionView::fresh(), start, events);
    assert(actions(
        workers,
        to_propagate,
        InsertionView::fresh(),
        recovery_events(uncached, outcomes, order),
    ) =~= recovery_asks(txs, workers));
}

/// What segment `k` reports takes the place of what was reported before.
proof fn lemma_all_reported(failures: Map<H256, Seq<char>>, outcomes: Seq<SegmentOutcome>, k: int)
    requires
        0 <= k < outcomes.len(),
        all_reported(failures, outcomes),
    ensures
        all_reported(failures.union_prefer_right(outcomes[k]@.failed), outcomes),
{
    let both = failures.union_prefer_right(outcomes[k]@.failed);
    assert forall|h: H256| #[trigger] both.contains_key(h) implies exists|l: int|
        reports(outcomes, l, h, both[h]) by {
        if outcomes[k]@.failed.contains_key(h) {
            assert(reports(outcomes, k, h, both[h]));
        } else {
            assert(failures.contains_key(h));
            assert(both[h] == failures[h]);
        }
    }
}

/// The reasons that segments report are those of failed transactions.
proof fn lemma_reported_reasons(
    failures: Map<H256, Seq<char>>,
    txs: Seq<TransactionWithSignature>,
    replies: Seq<Result<Public, String>>,
    outcomes: Seq<SegmentOutcome>,
    count: int,
)
    requires
        0 < count,
        replies.len() == txs.len(),
        worked_through(segments(txs, count), replies, outcomes),
        all_reported(failures, outcomes),
    ensures
        reasons_given(failures, txs, replies),
{
    assert forall|h: H256| #[trigger] failures.contains_key(h) implies exists|i: int|
        gives_reason(txs, replies, i, h, failures[h]) by {
        let k = choose|k: int| reports(outcomes, k, h, failures[h]);
        let i = lemma_reason_in_segment(txs, replies, outcomes, count, k, h);
        assert(gives_reason(txs, replies, i, h, failures[h]));
    }
}

/// The begins of segments ascend.
proof fn lemma_starts_ascend(n: int, count: int, k: int, l: int)
    requires
        0 < count,
        0 <= n,
        0 <= k <= l <= count,
    ensures
        segment_start(n, count, k) <= segment_start(n, count, l),
    decreases l - k,
{
    if k < l {
        lemma_segment_bounds(n, count, l - 1);
        assert(0 <= n / count) by (nonlinear_arith)
            requires
                0 < count,
                0 <= n,
        ;
        lemma_starts_ascend(n, count, k, l - 1);
    }
}

/// The reason that a segment reports is that of a failed transaction in it.
proof fn lemma_reason_in_segment(
    txs: Seq<TransactionWithSignature>,
    replies: Seq<Result<Public, String>>,
    outcomes: Seq<SegmentOutcome>,
    count: int,
    k: int,
    h: H256,
) -> (i: int)
    requires
        0 < count,
        replies.len() == txs.len(),
        worked_through(segments(txs, count), replies, outcomes),
        0 <= k < count,
        outcomes[k]@.failed.contains_key(h),
    ensures
        in_segment(txs.len() as int, count, k, i),
        gives_reason(txs, replies, i, h, outcomes[k]@.failed[h]),
{
    let n = txs.len() as int;
    lemma_segment_bounds(n, count, k);
    let start = segment_start(n, count, k);
    let t = segment(txs, count, k);
    let r = segment(replies, count, k);
    let e = outcomes[k]@.failed[h];
    recovery_reports_failures(t, r, h);
    let i = choose|i: int| gives_reason(t, r, i, h, e);
    assert(fails(txs, replies, start + i, h));
    start + i
}

/// The failures of a segment are among the failures of all.
proof fn lemma_part_of_failures(
    txs: Seq<TransactionWithSignature>,
    replies: Seq<Result<Public, String>>,
    outcomes: Seq<SegmentOutcome>,
    count: int,
    k: int,
)
    requires
        0 < count,
        replies.len() == txs.len(),
        worked_through(segments(txs, count), replies, outcomes),
        0 <= k < count,
    ensures
        outcomes[k]@.failed.dom().subset_of(recovered(txs, replies).failed.dom()),
{
    let part = outcomes[k]@.failed;
    let all = recovered(txs, replies).failed;
    assert forall|h: H256| #[trigger] part.contains_key(h) implies all.contains_key(h) by {
        let i = lemma_reason_in_segment(txs, replies, outcomes, count, k, h);
        assert(fails(txs, replies, i, h));
        recovery_reports_failures(txs, replies, h);
    }
}

/// A failure is one of some segment.
proof fn lemma_failure_has_a_segment(
    txs: Seq<TransactionWithSignature>,
    replies: Seq<Result<Public, String>>,
    outcomes: Seq<SegmentOutcome>,
    count: int,
    h: H256,
) -> (k: int)
    requires
        0 < count,
        replies.len() == txs.len(),
        worked_through(segments(txs, count), replies, outcomes),
        recovered(txs, replies).failed.contains_key(h),
    ensures
        0 <= k < count,
        outcomes[k]@.failed.contains_key(h),
{
    let n = txs.len() as int;
    recovery_reports_failures(txs, replies, h);
    let i = choose|i: int| fails(txs, replies, i, h);
    lemma_segment_bounds(n, count, 0);
    let k = lemma_position_has_a_segment(n, count, i, count);
    let t = segment(txs, count, k);
    let r = segment(replies, count, k);
    lemma_segment_bounds(n, count, k);
    recovery_reports_failures(t, r, h);
    assert(fails(t, r, i - segment_start(n, count, k), h));
    k
}

/// A position before the begin of segment `upto` is in a segment before it.
proof fn lemma_position_has_a_segment(n: int, count: int, i: int, upto: int) -> (k: int)
    requires
        0 < count,
        0 <= n,
        0 <= upto <= count,
        0 <= i < segment_start(n, count, upto),
    ensures
        0 <= k < upto,
        segment_start(n, count, k) <= i < segment_start(n, count, k + 1),
    decreases upto,
{
    lemma_segment_bounds(n, count, 0);
    lemma_segment_bounds(n, count, upto - 1);
    if i >= segment_start(n, count, upto - 1) {
        upto - 1
    } else {
        lemma_position_has_a_segment(n, count, i, upto - 1)
    }
}

/// The signed transactions of the first segments in a row are those of the
/// transactions up to there, and each failure up to there is reported by a
/// segment for the same reason.
proof fn lemma_signed_prefix(
    txs: Seq<TransactionWithSignature>,
    replies: Seq<Result<Public, String>>,
    outcomes: Seq<SegmentOutcome>,
    count: int,
    k: int,
)
    requires
        0 < count,
        replies.len() == txs.len(),
        worked_through(segments(txs, count), replies, outcomes),
        0 <= k <= count,
    ensures
        ({
            let to = segment_start(txs.len() as int, count, k);
            &&& 0 <= to <= txs.len()
            &&& Seq::new(count as nat, |i: int| outcomes[i]@.signed).take(k).flatten() == recovered(
                txs.take(to),
                replies.take(to),
            ).signed
            &&& all_reported(recovered(txs.take(to), replies.take(to)).failed, outcomes)
        }),
    decreases k,
{
    let n = txs.len() as int;
    let rows = Seq::new(count as nat, |i: int| outcomes[i]@.signed);
    lemma_segment_bounds(n, count, 0);
    if k == 0 {
        assert(rows.take(0).flatten() =~= Seq::<Arc<SignedTransaction>>::empty());
    } else {
        lemma_signed_prefix(txs, replies, outcomes, count, k - 1);
        lemma_segment_bounds(n, count, k - 1);
        let from = segment_start(n, count, k - 1);
        let to = segment_start(n, count, k);
        assert(rows.take(k) =~= rows.take(k - 1).push(rows[k - 1]));
        rows.take(k - 1).lemma_flatten_push(rows[k - 1]);
        let t = segment(txs, count, k - 1);
        let r = segment(replies, count, k - 1);
        assert(txs.take(to) =~= txs.take(from) + t);
        assert(replies.take(to) =~= replies.take(from) + r);
        recovery_is_additive(txs.take(from), replies.take(from), t, r);
        lemma_all_reported(
            recovered(txs.take(from), replies.take(from)).failed,
            outcomes,
            k - 1,
        );
    }
}

/// Where an insertion stands when some of the segments have come in.
proof fn lemma_arrivals(
    workers: int,
    to_propagate: Propagation,
    txs: Seq<TransactionWithSignature>,
    replies: Seq<Result<Public, String>>,
    outcomes: Seq<SegmentOutcome>,
    order: Seq<usize>,
    count: int,
    j: int,
)
    requires
        0 < count,
        replies.len() == txs.len(),
        worked_through(segments(txs, count), replies, outcomes),
        names_each_once(order, count),
        0 <= j < count,
    ensures
        ({
            let end = run(
                workers,
                to_propagate,
                InsertionView::fresh().hand_out(count),
                arrivals(outcomes, order.take(j)),
            );
            let s = end.1;
            &&& end.0 == to_propagate
            &&& s.stage == Stage::Recovering
            &&& s.awaited == count - j
            &&& s.signed_trans.len() == count
            &&& s.queue == Seq::<Arc<SignedTransaction>>::empty()
            &&& s.next == 0
            &&& s.passed == Seq::<Arc<SignedTransaction>>::empty()
            &&& s.failures.dom().subset_of(recovered(txs, replies).failed.dom())
            &&& all_reported(s.failures, outcomes)
            &&& all_expected(
                workers,
                to_propagate,
                InsertionView::fresh().hand_out(count),
                arrivals(outcomes, order.take(j)),
            )
            &&& actions(
                workers,
                to_propagate,
                InsertionView::fresh().hand_out(count),
                arrivals(outcomes, order.take(j)),
            ) == awaits(j)
            &&& forall|i: int|
                #![trigger order[i]]
                0 <= i < j ==> s.signed_trans[order[i] as int] == outcomes[order[i] as int]@.signed
                    && outcomes[order[i] as int]@.failed.dom().subset_of(s.failures.dom())
        }),
    decreases j,
{
    let handed = InsertionView::fresh().hand_out(count);
    if j == 0 {
        assert(arrivals(outcomes, order.take(0)) =~= Seq::empty());
        assert(awaits(0) =~= Seq::empty());
        assert(all_expected(workers, to_propagate, handed, Seq::empty())) by {
            reveal(all_expected);
        }
    } else {
        lemma_arrivals(workers, to_propagate, txs, replies, outcomes, order, count, j - 1);
        let events = arrivals(outcomes, order.take(j - 1));
        let k = order[j - 1];
        let event = InsertEvent::Recovered { index: k, outcome: outcomes[k as int] };
        assert(arrivals(outcomes, order.take(j)) =~= events.push(event));
        lemma_run_push(workers, to_propagate, handed, events, event);
        lemma_part_of_failures(txs, replies, outcomes, count, k as int);
        let before = run(workers, to_propagate, handed, events).1;
        lemma_all_reported(before.failures, outcomes, k as int);
        lemma_expected_one(workers, to_propagate, before, event);
        lemma_expected_add(workers, to_propagate, handed, events, seq![event]);
        assert(events + seq![event] =~= events.push(event));
        assert(awaits(j) =~= awaits(j - 1).push(ActionView::AwaitSegment));
    }
}

} // verus!
