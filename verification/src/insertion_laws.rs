//! What comes of a whole insertion, and what is asked for along the way.
use crate::insertion::{
    insert_step, propagate, refusal_of, verdict_on, ActionView, InsertEvent, InsertionView, Stage,
};
use crate::pool::{requests, AddRequest, Propagation};
use crate::recovery::{recovered, SegmentOutcome};
use crate::recovery_laws::{
    agree, all_recovered, fails, handed_out, names_each_once, reasons_given, recovery_asks,
    recovery_asks_for_each_segment, recovery_does_not_depend_on_the_split, recovery_events,
    recovery_events_are_expected, recovery_hands_on_the_same_transactions,
    recovery_reports_failures, worked_through, workers_used,
};
use crate::rules::text;
use crate::runs::{
    actions, all_expected, lemma_expected_add, lemma_expected_each, lemma_expected_one,
    lemma_run_add, lemma_run_one, run,
};
use crate::types::{Public, SignedTransaction, TransactionWithSignature, H256};
use std::sync::Arc;
use vstd::prelude::*;

verus! {

/// What an insertion waits for once it has told what is to be done.
pub open spec fn asks_for(action: ActionView) -> Stage {
    match action {
        ActionView::RecoverInline(_) => Stage::Recovering,
        ActionView::RecoverOnWorkers(_) => Stage::Recovering,
        ActionView::AwaitSegment => Stage::Recovering,
        ActionView::Open => Stage::Opening,
        ActionView::Cache(_) => Stage::Caching,
        ActionView::Measure { .. } => Stage::Measuring,
        ActionView::CheckForm(_) => Stage::Forming,
        ActionView::Add(_) => Stage::Adding,
        ActionView::Report => Stage::Finished,
    }
}

/// An insertion waits for what it has asked for, and for as many segments as it
/// has handed out. What it asks to be cached, checked or added is the transaction
/// whose turn it is.
pub proof fn an_action_is_waited_for(
    workers: int,
    to_propagate: Propagation,
    insertion: InsertionView,
    event: InsertEvent,
)
    requires
        0 < workers,
        insertion.valid(),
        insertion.expects(event),
    ensures
        ({
            let step = insert_step(workers, to_propagate, insertion, event);
            &&& step.insertion.valid()
            &&& step.insertion.stage == asks_for(step.action)
            &&& match step.action {
                ActionView::RecoverInline(_) => step.insertion.signed_trans.len() == 1
                    && step.insertion.awaited == 1,
                ActionView::RecoverOnWorkers(parts) => step.insertion.signed_trans.len()
                    == parts.len() && step.insertion.awaited == parts.len(),
                ActionView::AwaitSegment => step.insertion.signed_trans.len()
                    == insertion.signed_trans.len() && step.insertion.awaited == insertion.awaited
                    - 1,
                ActionView::Cache(tx) => tx == step.insertion.current(),
                ActionView::Measure { transaction, is_create } => transaction
                    == step.insertion.current() && is_create == (
                transaction.transaction.action is Create),
                ActionView::CheckForm(tx) => tx == step.insertion.current(),
                ActionView::Add(request) => request.transaction == step.insertion.current()
                    && !request.packed && !request.force,
                _ => true,
            }
        }),
{
}

/// What is answered for one transaction: by the checks on it, and by the
/// deferred pool if it gets there.
pub struct Answer {
    pub intrinsic_gas: u64,
    pub basic: Result<(), String>,
    pub added: Result<(), String>,
}

/// What `tx` is told: it breaks a rule, or else what the deferred pool says.
pub open spec fn admission(tx: Arc<SignedTransaction>, answer: Answer) -> Result<(), Seq<char>> {
    match verdict_on(tx, answer.intrinsic_gas, answer.basic) {
        Ok(()) => text(answer.added),
        Err(e) => Err(e),
    }
}

/// Whether the transaction at position `i` is let in.
pub open spec fn let_in(
    queue: Seq<Arc<SignedTransaction>>,
    answers: Seq<Answer>,
    i: int,
) -> bool {
    0 <= i < queue.len() && admission(queue[i], answers[i]) is Ok
}

/// Whether the transaction at position `i` is turned down.
pub open spec fn turned_down(
    queue: Seq<Arc<SignedTransaction>>,
    answers: Seq<Answer>,
    i: int,
) -> bool {
    0 <= i < queue.len() && admission(queue[i], answers[i]) is Err
}

/// The transactions that are let in, in their order.
pub open spec fn accepted(queue: Seq<Arc<SignedTransaction>>, answers: Seq<Answer>) -> Seq<
    Arc<SignedTransaction>,
>
    decreases queue.len(),
{
    if queue.len() == 0 {
        Seq::empty()
    } else {
        let before = accepted(queue.drop_last(), answers.drop_last());
        if admission(queue.last(), answers.last()) is Ok {
            before.push(queue.last())
        } else {
            before
        }
    }
}

/// The failures so far, and those of the transactions that are turned down.
pub open spec fn rejected(
    failures: Map<H256, Seq<char>>,
    queue: Seq<Arc<SignedTransaction>>,
    answers: Seq<Answer>,
) -> Map<H256, Seq<char>>
    decreases queue.len(),
{
    if queue.len() == 0 {
        failures
    } else {
        let before = rejected(failures, queue.drop_last(), answers.drop_last());
        match admission(queue.last(), answers.last()) {
            Ok(()) => before,
            Err(e) => before.insert(queue.last().transaction.hash, e),
        }
    }
}

/// The transactions to pass on, with those among them that are let in.
pub open spec fn propagated(
    to_propagate: Propagation,
    queue: Seq<Arc<SignedTransaction>>,
    answers: Seq<Answer>,
) -> Propagation
    decreases queue.len(),
{
    if queue.len() == 0 {
        to_propagate
    } else {
        let before = propagated(to_propagate, queue.drop_last(), answers.drop_last());
        if admission(queue.last(), answers.last()) is Ok {
            propagate(before, queue.last())
        } else {
            before
        }
    }
}

/// The events while it is the turn of `tx`. What is not needed any more, because
/// the transaction is refused, does not happen.
pub open spec fn turn_events(tx: Arc<SignedTransaction>, answer: Answer) -> Seq<InsertEvent> {
    if refusal_of(tx, None) is Some {
        seq![InsertEvent::Cached]
    } else if refusal_of(tx, Some(answer.intrinsic_gas)) is Some {
        seq![InsertEvent::Cached, InsertEvent::Measured(answer.intrinsic_gas)]
    } else if answer.basic is Err {
        seq![
            InsertEvent::Cached,
            InsertEvent::Measured(answer.intrinsic_gas),
            InsertEvent::Formed(answer.basic),
        ]
    } else {
        seq![
            InsertEvent::Cached,
            InsertEvent::Measured(answer.intrinsic_gas),
            InsertEvent::Formed(answer.basic),
            InsertEvent::Added(answer.added),
        ]
    }
}

/// What is asked for while it is the turn of `tx`, after it has been cached.
pub open spec fn turn_asks(tx: Arc<SignedTransaction>, answer: Answer) -> Seq<ActionView> {
    let measure = ActionView::Measure {
        transaction: tx,
        is_create: tx.transaction.action is Create,
    };
    let add = ActionView::Add(AddRequest { transaction: tx, packed: false, force: false });
    if refusal_of(tx, None) is Some {
        seq![]
    } else if refusal_of(tx, Some(answer.intrinsic_gas)) is Some {
        seq![measure]
    } else if answer.basic is Err {
        seq![measure, ActionView::CheckForm(tx)]
    } else {
        seq![measure, ActionView::CheckForm(tx), add]
    }
}

/// The events from the point where every signer has been recovered.
pub open spec fn admission_events(
    queue: Seq<Arc<SignedTransaction>>,
    answers: Seq<Answer>,
) -> Seq<InsertEvent>
    decreases queue.len(),
{
    if queue.len() == 0 {
        seq![InsertEvent::Opened]
    } else {
        admission_events(queue.drop_last(), answers.drop_last()) + turn_events(
            queue.last(),
            answers.last(),
        )
    }
}

/// What is asked for from the point where every signer has been recovered, up
/// to the report: each transaction is cached, and what the rules need to know of
/// it is found out.
pub open spec fn admission_asks(
    queue: Seq<Arc<SignedTransaction>>,
    answers: Seq<Answer>,
) -> Seq<ActionView>
    decreases queue.len(),
{
    if queue.len() == 0 {
        Seq::empty()
    } else {
        admission_asks(queue.drop_last(), answers.drop_last()).push(
            ActionView::Cache(queue.last()),
        ) + turn_asks(queue.last(), answers.last())
    }
}

/// Each transaction gets its turn, in the order of the queue. In the end those
/// that were let in have passed, in their order, and are to be passed on, and
/// the others have failed. Each event finds the insertion waiting for it.
pub proof fn admission_goes_through_the_queue(
    workers: int,
    to_propagate: Propagation,
    insertion: InsertionView,
    answers: Seq<Answer>,
)
    requires
        insertion.valid(),
        insertion.stage == Stage::Opening,
        answers.len() == insertion.queue.len(),
    ensures
        ({
            let events = admission_events(insertion.queue, answers);
            &&& run(workers, to_propagate, insertion, events) == (
                propagated(to_propagate, insertion.queue, answers),
                InsertionView {
                    stage: Stage::Finished,
                    next: insertion.queue.len() as int,
                    failures: rejected(insertion.failures, insertion.queue, answers),
                    passed: insertion.passed + accepted(insertion.queue, answers),
                    ..insertion
                },
            )
            &&& actions(workers, to_propagate, insertion, events) == admission_asks(
                insertion.queue,
                answers,
            ).push(ActionView::Report)
            &&& all_expected(workers, to_propagate, insertion, events)
        }),
{
    let n = insertion.queue.len() as int;
    lemma_admission_prefix(workers, to_propagate, insertion, answers, n);
    assert(insertion.queue.take(n) =~= insertion.queue);
    assert(answers.take(n) =~= answers);
}

/// The turn of one transaction.
#[verifier::rlimit(40)]
proof fn lemma_turn(
    workers: int,
    to_propagate: Propagation,
    insertion: InsertionView,
    answer: Answer,
)
    requires
        insertion.stage == Stage::Caching,
        0 <= insertion.next < insertion.queue.len(),
    ensures
        ({
            let tx = insertion.current();
            let end = match admission(tx, answer) {
                Ok(()) => insertion.pass(),
                Err(e) => insertion.fail(e),
            };
            let events = turn_events(tx, answer);
            &&& run(workers, to_propagate, insertion, events) == (
                if admission(tx, answer) is Ok {
                    propagate(to_propagate, tx)
                } else {
                    to_propagate
                },
                end,
            )
            &&& actions(workers, to_propagate, insertion, events) == turn_asks(tx, answer).push(
                end.turn_action(),
            )
            &&& all_expected(workers, to_propagate, insertion, events)
        }),
{
    let tx = insertion.current();
    let p = to_propagate;
    let cached = seq![InsertEvent::Cached];
    let measured = seq![InsertEvent::Measured(answer.intrinsic_gas)];
    let formed = seq![InsertEvent::Formed(answer.basic)];
    let added = seq![InsertEvent::Added(answer.added)];
    let i1 = InsertionView { stage: Stage::Measuring, ..insertion };
    let i2 = InsertionView { stage: Stage::Forming, ..insertion };
    let i3 = InsertionView { stage: Stage::Adding, ..insertion };
    let end = match admission(tx, answer) {
        Ok(()) => insertion.pass(),
        Err(e) => insertion.fail(e),
    };
    let events = turn_events(tx, answer);
    lemma_run_one(workers, p, insertion, InsertEvent::Cached);
    lemma_expected_one(workers, p, insertion, InsertEvent::Cached);
    if refusal_of(tx, None) is None {
        lemma_run_one(workers, p, i1, InsertEvent::Measured(answer.intrinsic_gas));
        lemma_run_add(workers, p, insertion, cached, measured);
        lemma_expected_one(workers, p, i1, InsertEvent::Measured(answer.intrinsic_gas));
        lemma_expected_add(workers, p, insertion, cached, measured);
        if refusal_of(tx, Some(answer.intrinsic_gas)) is Some {
            assert(events =~= cached + measured);
            assert(i1.fail(refusal_of(tx, Some(answer.intrinsic_gas))->0) =~= end);
        } else {
            lemma_run_one(workers, p, i2, InsertEvent::Formed(answer.basic));
            lemma_run_add(workers, p, insertion, cached + measured, formed);
            lemma_expected_one(workers, p, i2, InsertEvent::Formed(answer.basic));
            lemma_expected_add(workers, p, insertion, cached + measured, formed);
            if answer.basic is Err {
                assert(events =~= cached + measured + formed);
                assert(i2.fail(answer.basic->Err_0@) =~= end);
            } else {
                lemma_run_one(workers, p, i3, InsertEvent::Added(answer.added));
                lemma_run_add(workers, p, insertion, cached + measured + formed, added);
                lemma_expected_one(workers, p, i3, InsertEvent::Added(answer.added));
                lemma_expected_add(workers, p, insertion, cached + measured + formed, added);
                assert(events =~= cached + measured + formed + added);
                if answer.added is Err {
                    assert(i3.fail(answer.added->Err_0@) =~= end);
                } else {
                    assert(i3.pass() =~= end);
                }
            }
        }
    }
    assert(actions(workers, p, insertion, events) =~= turn_asks(tx, answer).push(
        end.turn_action(),
    ));
}

proof fn lemma_admission_prefix(
    workers: int,
    to_propagate: Propagation,
    insertion: InsertionView,
    answers: Seq<Answer>,
    k: int,
)
    requires
        insertion.valid(),
        insertion.stage == Stage::Opening,
        answers.len() == insertion.queue.len(),
        0 <= k <= insertion.queue.len(),
    ensures
        ({
            let q = insertion.queue.take(k);
            let a = answers.take(k);
            let end = InsertionView {
                failures: rejected(insertion.failures, q, a),
                passed: insertion.passed + accepted(q, a),
                ..insertion
            }.turn(k);
            &&& run(workers, to_propagate, insertion, admission_events(q, a)) == (
                propagated(to_propagate, q, a),
                end,
            )
            &&& actions(workers, to_propagate, insertion, admission_events(q, a))
                == admission_asks(q, a).push(end.turn_action())
            &&& all_expected(workers, to_propagate, insertion, admission_events(q, a))
        }),
    decreases k,
{
    let q = insertion.queue.take(k);
    let a = answers.take(k);
    let end = InsertionView {
        failures: rejected(insertion.failures, q, a),
        passed: insertion.passed + accepted(q, a),
        ..insertion
    }.turn(k);
    if k == 0 {
        lemma_run_one(workers, to_propagate, insertion, InsertEvent::Opened);
        lemma_expected_one(workers, to_propagate, insertion, InsertEvent::Opened);
        assert(insertion.passed + accepted(q, a) =~= insertion.passed);
        assert(actions(workers, to_propagate, insertion, admission_events(q, a))
            =~= admission_asks(q, a).push(end.turn_action()));
    } else {
        lemma_admission_prefix(workers, to_propagate, insertion, answers, k - 1);
        assert(q.drop_last() =~= insertion.queue.take(k - 1));
        assert(a.drop_last() =~= answers.take(k - 1));
        let before = admission_events(q.drop_last(), a.drop_last());
        let middle = run(workers, to_propagate, insertion, before);
        assert(middle.1.current() == q.last());
        lemma_turn(workers, middle.0, middle.1, a.last());
        lemma_run_add(
            workers,
            to_propagate,
            insertion,
            before,
            turn_events(q.last(), a.last()),
        );
        lemma_expected_add(
            workers,
            to_propagate,
            insertion,
            before,
            turn_events(q.last(), a.last()),
        );
        assert(run(workers, to_propagate, insertion, admission_events(q, a)).1 =~= end);
        assert(actions(workers, to_propagate, insertion, admission_events(q, a))
            =~= admission_asks(q, a).push(end.turn_action()));
    }
}

/// Those that have passed are those that were let in.
pub proof fn passed_means_let_in(
    queue: Seq<Arc<SignedTransaction>>,
    answers: Seq<Answer>,
    tx: Arc<SignedTransaction>,
)
    requires
        queue.len() == answers.len(),
    ensures
        accepted(queue, answers).contains(tx) <==> exists|i: int|
            #[trigger] let_in(queue, answers, i) && queue[i] == tx,
    decreases queue.len(),
{
    if queue.len() > 0 {
        let last = queue.len() - 1;
        let q = queue.drop_last();
        let a = answers.drop_last();
        passed_means_let_in(q, a, tx);
        let before = accepted(q, a);
        let now = accepted(queue, answers);
        assert forall|i: int| #[trigger] let_in(queue, answers, i) && i != last implies let_in(
            q,
            a,
            i,
        ) by {}
        assert forall|i: int| #[trigger] let_in(q, a, i) implies let_in(queue, answers, i) && q[i]
            == queue[i] by {}
        if let_in(queue, answers, last) {
            assert(now.last() == queue.last());
            assert(now =~= before.push(queue.last()));
            if before.contains(tx) {
                let j = choose|j: int| 0 <= j < before.len() && before[j] == tx;
                assert(now[j] == tx);
            }
            if now.contains(tx) && tx != queue.last() {
                let j = choose|j: int| 0 <= j < now.len() && now[j] == tx;
                assert(before[j] == tx);
            }
        }
    }
}

/// A hash is among the failures if it was before, or if a transaction with it
/// was turned down. Of several that were turned down, the last one gives the
/// reason; where none was, the reason is the one from before.
pub proof fn failed_means_turned_down(
    failures: Map<H256, Seq<char>>,
    queue: Seq<Arc<SignedTransaction>>,
    answers: Seq<Answer>,
    h: H256,
)
    requires
        queue.len() == answers.len(),
    ensures
        ({
            let all = rejected(failures, queue, answers);
            &&& all.contains_key(h) <==> failures.contains_key(h) || exists|i: int|
                #[trigger] turned_down(queue, answers, i) && queue[i].transaction.hash == h
            &&& forall|i: int|
                {
                    &&& #[trigger] turned_down(queue, answers, i)
                    &&& queue[i].transaction.hash == h
                    &&& forall|j: int|
                        i < j && #[trigger] turned_down(queue, answers, j)
                            ==> queue[j].transaction.hash != h
                } ==> all[h] == admission(queue[i], answers[i])->Err_0
            &&& failures.contains_key(h) && (forall|i: int| #[trigger]
                turned_down(queue, answers, i) ==> queue[i].transaction.hash != h) ==> all[h]
                == failures[h]
        }),
    decreases queue.len(),
{
    if queue.len() > 0 {
        let last = queue.len() - 1;
        let q = queue.drop_last();
        let a = answers.drop_last();
        failed_means_turned_down(failures, q, a, h);
        let before = rejected(failures, q, a);
        let all = rejected(failures, queue, answers);
        assert forall|i: int| #[trigger] turned_down(queue, answers, i) && i != last implies turned_down(
            q,
            a,
            i,
        ) by {}
        assert forall|i: int| #[trigger] turned_down(q, a, i) implies turned_down(
            queue,
            answers,
            i,
        ) && q[i] == queue[i] by {}
        if !(turned_down(queue, answers, last) && queue[last].transaction.hash == h) {
            assert(all.contains_key(h) == before.contains_key(h));
            assert(all.contains_key(h) ==> all[h] == before[h]);
            assert forall|i: int|
                {
                    &&& #[trigger] turned_down(queue, answers, i)
                    &&& queue[i].transaction.hash == h
                    &&& forall|j: int|
                        i < j && #[trigger] turned_down(queue, answers, j)
                            ==> queue[j].transaction.hash != h
                } implies all[h] == admission(queue[i], answers[i])->Err_0 by {
                assert(turned_down(q, a, i));
                assert forall|j: int| i < j && #[trigger] turned_down(q, a, j) implies q[j].transaction.hash
                    != h by {
                    assert(turned_down(queue, answers, j));
                }
            }
        } else {
            assert forall|i: int|
                {
                    &&& #[trigger] turned_down(queue, answers, i)
                    &&& queue[i].transaction.hash == h
                    &&& forall|j: int|
                        i < j && #[trigger] turned_down(queue, answers, j)
                            ==> queue[j].transaction.hash != h
                } implies all[h] == admission(queue[i], answers[i])->Err_0 by {
                assert(i == last);
            }
        }
    }
}

/// A hash is among those to pass on if it was before, or if a transaction with
/// it was let in. What was there before stays; of several that were let in,
/// the first one is passed on.
pub proof fn let_in_means_passed_on(
    to_propagate: Propagation,
    queue: Seq<Arc<SignedTransaction>>,
    answers: Seq<Answer>,
    h: H256,
)
    requires
        queue.len() == answers.len(),
    ensures
        ({
            let all = propagated(to_propagate, queue, answers);
            &&& all.contains_key(h) <==> to_propagate.contains_key(h) || exists|i: int|
                #[trigger] let_in(queue, answers, i) && queue[i].transaction.hash == h
            &&& to_propagate.contains_key(h) ==> all[h] == to_propagate[h]
            &&& !to_propagate.contains_key(h) ==> forall|i: int|
                {
                    &&& #[trigger] let_in(queue, answers, i)
                    &&& queue[i].transaction.hash == h
                    &&& forall|j: int|
                        j < i && #[trigger] let_in(queue, answers, j) ==> queue[j].transaction.hash
                            != h
                } ==> all[h] == queue[i]
        }),
    decreases queue.len(),
{
    if queue.len() > 0 {
        let last = queue.len() - 1;
        let q = queue.drop_last();
        let a = answers.drop_last();
        let_in_means_passed_on(to_propagate, q, a, h);
        let before = propagated(to_propagate, q, a);
        let all = propagated(to_propagate, queue, answers);
        assert forall|i: int| #[trigger] let_in(queue, answers, i) && i != last implies let_in(
            q,
            a,
            i,
        ) by {}
        assert forall|i: int| #[trigger] let_in(q, a, i) implies let_in(queue, answers, i) && q[i]
            == queue[i] by {}
        assert(let_in(queue, answers, last) <==> admission(queue.last(), answers.last()) is Ok);
        assert(before.contains_key(h) ==> all.contains_key(h) && all[h] == before[h]);
        if !to_propagate.contains_key(h) {
            assert forall|i: int|
                {
                    &&& #[trigger] let_in(queue, answers, i)
                    &&& queue[i].transaction.hash == h
                    &&& forall|j: int|
                        j < i && #[trigger] let_in(queue, answers, j) ==> queue[j].transaction.hash
                            != h
                } implies all[h] == queue[i] by {
                if i != last {
                    assert(let_in(q, a, i));
                    assert forall|j: int| j < i && #[trigger] let_in(q, a, j) implies q[j].transaction.hash
                        != h by {
                        assert(let_in(queue, answers, j));
                    }
                    assert(before.contains_key(h));
                } else {
                    assert(!before.contains_key(h)) by {
                        if before.contains_key(h) {
                            let j = choose|j: int|
                                #[trigger] let_in(q, a, j) && q[j].transaction.hash == h;
                            assert(let_in(queue, answers, j));
                        }
                    }
                }
            }
        }
    }
}

/// The events of a whole insertion.
pub open spec fn insertion_events(
    uncached: Vec<TransactionWithSignature>,
    replies: Seq<Result<Public, String>>,
    outcomes: Seq<SegmentOutcome>,
    order: Seq<usize>,
    answers: Seq<Answer>,
) -> Seq<InsertEvent> {
    recovery_events(uncached, outcomes, order) + admission_events(
        recovered(uncached@, replies).signed,
        answers,
    )
}

/// What comes of inserting `uncached` from the first step to the last, however
/// the recovery of signers is split: `replies` are the replies to the
/// recoveries, `answers` the answers for those whose signer was recovered.
/// The segments agree on the reasons for failures.
pub proof fn insertion_comes_to_an_end(
    workers: usize,
    to_propagate: Propagation,
    uncached: Vec<TransactionWithSignature>,
    replies: Seq<Result<Public, String>>,
    outcomes: Seq<SegmentOutcome>,
    order: Seq<usize>,
    answers: Seq<Answer>,
)
    requires
        0 < workers,
        replies.len() == uncached@.len(),
        worked_through(handed_out(workers as int, to_propagate, uncached), replies, outcomes),
        agree(outcomes),
        names_each_once(order, workers_used(uncached@.len() as int, workers as int)),
        answers.len() == recovered(uncached@, replies).signed.len(),
    ensures
        ({
            let all = recovered(uncached@, replies);
            run(
                workers as int,
                to_propagate,
                InsertionView::fresh(),
                insertion_events(uncached, replies, outcomes, order, answers),
            ) == (
                propagated(to_propagate, all.signed, answers),
                InsertionView {
                    stage: Stage::Finished,
                    queue: all.signed,
                    next: all.signed.len() as int,
                    failures: rejected(all.failed, all.signed, answers),
                    passed: accepted(all.signed, answers),
                    ..InsertionView::fresh()
                },
            )
        }),
{
    let all = recovered(uncached@, replies);
    let first = recovery_events(uncached, outcomes, order);
    let second = admission_events(all.signed, answers);
    recovery_does_not_depend_on_the_split(
        workers,
        to_propagate,
        uncached,
        replies,
        outcomes,
        order,
    );
    lemma_run_add(workers as int, to_propagate, InsertionView::fresh(), first, second);
    admission_goes_through_the_queue(workers as int, to_propagate, all_recovered(all), answers);
    assert(Seq::empty() + accepted(all.signed, answers) =~= accepted(all.signed, answers));
}

/// What comes of an insertion whatever the reasons for failures: what passes and
/// what is passed on does not depend on how the recovery of signers is split,
/// and neither does which hashes fail. Where a hash fails in recovery, the
/// reason is that of a failed transaction with the hash, unless a transaction
/// with the hash is turned down later.
pub proof fn insertion_lets_the_same_transactions_in(
    workers: usize,
    to_propagate: Propagation,
    uncached: Vec<TransactionWithSignature>,
    replies: Seq<Result<Public, String>>,
    outcomes: Seq<SegmentOutcome>,
    order: Seq<usize>,
    answers: Seq<Answer>,
)
    requires
        0 < workers,
        replies.len() == uncached@.len(),
        worked_through(handed_out(workers as int, to_propagate, uncached), replies, outcomes),
        names_each_once(order, workers_used(uncached@.len() as int, workers as int)),
        answers.len() == recovered(uncached@, replies).signed.len(),
    ensures
        ({
            let all = recovered(uncached@, replies);
            let end = run(
                workers as int,
                to_propagate,
                InsertionView::fresh(),
                insertion_events(uncached, replies, outcomes, order, answers),
            );
            &&& end.0 == propagated(to_propagate, all.signed, answers)
            &&& end.1 == (InsertionView {
                stage: Stage::Finished,
                queue: all.signed,
                next: all.signed.len() as int,
                failures: end.1.failures,
                passed: accepted(all.signed, answers),
                ..InsertionView::fresh()
            })
            &&& end.1.failures.dom() == rejected(all.failed, all.signed, answers).dom()
            &&& exists|failed: Map<H256, Seq<char>>|
                {
                    &&& failed.dom() == all.failed.dom()
                    &&& reasons_given(failed, uncached@, replies)
                    &&& end.1.failures == #[trigger] rejected(failed, all.signed, answers)
                }
        }),
{
    let all = recovered(uncached@, replies);
    let first = recovery_events(uncached, outcomes, order);
    let second = admission_events(all.signed, answers);
    recovery_hands_on_the_same_transactions(
        workers,
        to_propagate,
        uncached,
        replies,
        outcomes,
        order,
    );
    let middle = run(workers as int, to_propagate, InsertionView::fresh(), first);
    lemma_run_add(workers as int, to_propagate, InsertionView::fresh(), first, second);
    admission_goes_through_the_queue(workers as int, to_propagate, middle.1, answers);
    assert(Seq::empty() + accepted(all.signed, answers) =~= accepted(all.signed, answers));
    lemma_rejected_hashes(middle.1.failures, all.failed, all.signed, answers);
}

proof fn lemma_rejected_hashes(
    first: Map<H256, Seq<char>>,
    second: Map<H256, Seq<char>>,
    queue: Seq<Arc<SignedTransaction>>,
    answers: Seq<Answer>,
)
    requires
        first.dom() == second.dom(),
    ensures
        rejected(first, queue, answers).dom() == rejected(second, queue, answers).dom(),
    decreases queue.len(),
{
    if queue.len() > 0 {
        lemma_rejected_hashes(first, second, queue.drop_last(), answers.drop_last());
        assert(rejected(first, queue, answers).dom() =~= rejected(second, queue, answers).dom());
    }
}

/// In the course of an insertion, from the first event to the last, each event
/// finds the insertion valid and waiting for it.
pub proof fn each_event_is_expected(
    workers: usize,
    to_propagate: Propagation,
    uncached: Vec<TransactionWithSignature>,
    replies: Seq<Result<Public, String>>,
    outcomes: Seq<SegmentOutcome>,
    order: Seq<usize>,
    answers: Seq<Answer>,
)
    requires
        0 < workers,
        replies.len() == uncached@.len(),
        worked_through(handed_out(workers as int, to_propagate, uncached), replies, outcomes),
        names_each_once(order, workers_used(uncached@.len() as int, workers as int)),
        answers.len() == recovered(uncached@, replies).signed.len(),
    ensures
        ({
            let events = insertion_events(uncached, replies, outcomes, order, answers);
            forall|k: int|
                0 <= k < events.len() ==> {
                    let s = run(
                        workers as int,
                        to_propagate,
                        InsertionView::fresh(),
                        #[trigger] events.take(k),
                    ).1;
                    s.valid() && s.expects(events[k])
                }
        }),
{
    let all = recovered(uncached@, replies);
    let first = recovery_events(uncached, outcomes, order);
    let second = admission_events(all.signed, answers);
    recovery_hands_on_the_same_transactions(
        workers,
        to_propagate,
        uncached,
        replies,
        outcomes,
        order,
    );
    recovery_events_are_expected(workers, to_propagate, uncached, replies, outcomes, order);
    let middle = run(workers as int, to_propagate, InsertionView::fresh(), first);
    admission_goes_through_the_queue(workers as int, to_propagate, middle.1, answers);
    lemma_expected_add(workers as int, to_propagate, InsertionView::fresh(), first, second);
    lemma_expected_each(workers as int, to_propagate, InsertionView::fresh(), first + second);
}

/// What is asked for in the course of an insertion, from the first action to the
/// report.
pub proof fn insertion_asks_in_order(
    workers: usize,
    to_propagate: Propagation,
    uncached: Vec<TransactionWithSignature>,
    replies: Seq<Result<Public, String>>,
    outcomes: Seq<SegmentOutcome>,
    order: Seq<usize>,
    answers: Seq<Answer>,
)
    requires
        0 < workers,
        replies.len() == uncached@.len(),
        worked_through(handed_out(workers as int, to_propagate, uncached), replies, outcomes),
        names_each_once(order, workers_used(uncached@.len() as int, workers as int)),
        answers.len() == recovered(uncached@, replies).signed.len(),
    ensures
        actions(
            workers as int,
            to_propagate,
            InsertionView::fresh(),
            insertion_events(uncached, replies, outcomes, order, answers),
        ) == recovery_asks(uncached@, workers as int) + admission_asks(
            recovered(uncached@, replies).signed,
            answers,
        ).push(ActionView::Report),
{
    let all = recovered(uncached@, replies);
    let first = recovery_events(uncached, outcomes, order);
    let second = admission_events(all.signed, answers);
    recovery_hands_on_the_same_transactions(
        workers,
        to_propagate,
        uncached,
        replies,
        outcomes,
        order,
    );
    recovery_asks_for_each_segment(workers, to_propagate, uncached, replies, outcomes, order);
    let middle = run(workers as int, to_propagate, InsertionView::fresh(), first);
    lemma_run_add(workers as int, to_propagate, InsertionView::fresh(), first, second);
    admission_goes_through_the_queue(workers as int, to_propagate, middle.1, answers);
}

/// The transactions that were to be cached, in the order of the actions.
pub open spec fn cached(asked: Seq<ActionView>) -> Seq<Arc<SignedTransaction>>
    decreases asked.len(),
{
    if asked.len() == 0 {
        Seq::empty()
    } else {
        let before = cached(asked.drop_last());
        match asked.last() {
            ActionView::Cache(tx) => before.push(tx),
            _ => before,
        }
    }
}

/// The requests to the deferred pool, in the order of the actions.
pub open spec fn offered(asked: Seq<ActionView>) -> Seq<AddRequest>
    decreases asked.len(),
{
    if asked.len() == 0 {
        Seq::empty()
    } else {
        let before = offered(asked.drop_last());
        match asked.last() {
            ActionView::Add(request) => before.push(request),
            _ => before,
        }
    }
}

/// The transactions that break no rule, in their order.
pub open spec fn sound(queue: Seq<Arc<SignedTransaction>>, answers: Seq<Answer>) -> Seq<
    Arc<SignedTransaction>,
>
    decreases queue.len(),
{
    if queue.len() == 0 {
        Seq::empty()
    } else {
        let before = sound(queue.drop_last(), answers.drop_last());
        if verdict_on(queue.last(), answers.last().intrinsic_gas, answers.last().basic) is Ok {
            before.push(queue.last())
        } else {
            before
        }
    }
}

/// In the course of an insertion each transaction whose signer was recovered is
/// cached, once and in order. Those that break no rule, and no others, are
/// offered to the deferred pool, once and in order, neither as packed nor by
/// force.
pub proof fn each_transaction_is_offered_once(
    workers: usize,
    to_propagate: Propagation,
    uncached: Vec<TransactionWithSignature>,
    replies: Seq<Result<Public, String>>,
    outcomes: Seq<SegmentOutcome>,
    order: Seq<usize>,
    answers: Seq<Answer>,
)
    requires
        0 < workers,
        replies.len() == uncached@.len(),
        worked_through(handed_out(workers as int, to_propagate, uncached), replies, outcomes),
        names_each_once(order, workers_used(uncached@.len() as int, workers as int)),
        answers.len() == recovered(uncached@, replies).signed.len(),
    ensures
        ({
            let all = recovered(uncached@, replies);
            let asked = actions(
                workers as int,
                to_propagate,
                InsertionView::fresh(),
                insertion_events(uncached, replies, outcomes, order, answers),
            );
            &&& cached(asked) == all.signed
            &&& offered(asked) == requests(sound(all.signed, answers), false, false)
        }),
{
    let all = recovered(uncached@, replies);
    insertion_asks_in_order(
        workers,
        to_propagate,
        uncached,
        replies,
        outcomes,
        order,
        answers,
    );
    let first = recovery_asks(uncached@, workers as int);
    let second = admission_asks(all.signed, answers);
    lemma_other_actions(first);
    lemma_admission_offers(all.signed, answers);
    lemma_asked_add(first, second.push(ActionView::Report));
    assert(second.push(ActionView::Report).drop_last() =~= second);
    assert(Seq::empty() + cached(second) =~= cached(second));
    assert(Seq::empty() + offered(second) =~= offered(second));
}

/// Other actions neither cache nor offer anything.
proof fn lemma_other_actions(asked: Seq<ActionView>)
    requires
        forall|i: int|
            0 <= i < asked.len() ==> !((#[trigger] asked[i]) is Cache) && !(asked[i] is Add),
    ensures
        cached(asked) == Seq::<Arc<SignedTransaction>>::empty(),
        offered(asked) == Seq::<AddRequest>::empty(),
    decreases asked.len(),
{
    if asked.len() > 0 {
        lemma_other_actions(asked.drop_last());
    }
}

proof fn lemma_asked_add(first: Seq<ActionView>, second: Seq<ActionView>)
    ensures
        cached(first + second) == cached(first) + cached(second),
        offered(first + second) == offered(first) + offered(second),
    decreases second.len(),
{
    if second.len() == 0 {
        assert(first + second =~= first);
    } else {
        lemma_asked_add(first, second.drop_last());
        assert((first + second).drop_last() =~= first + second.drop_last());
    }
    assert(cached(first + second) =~= cached(first) + cached(second));
    assert(offered(first + second) =~= offered(first) + offered(second));
}

proof fn lemma_admission_offers(queue: Seq<Arc<SignedTransaction>>, answers: Seq<Answer>)
    requires
        queue.len() == answers.len(),
    ensures
        cached(admission_asks(queue, answers)) == queue,
        offered(admission_asks(queue, answers)) == requests(sound(queue, answers), false, false),
    decreases queue.len(),
{
    if queue.len() == 0 {
        assert(cached(admission_asks(queue, answers)) =~= queue);
        assert(offered(admission_asks(queue, answers)) =~= requests(
            sound(queue, answers),
            false,
            false,
        ));
    } else {
        let q = queue.drop_last();
        let a = answers.drop_last();
        let tx = queue.last();
        let answer = answers.last();
        lemma_admission_offers(q, a);
        let before = admission_asks(q, a);
        let with_cache = before.push(ActionView::Cache(tx));
        let rest = turn_asks(tx, answer);
        assert(with_cache.drop_last() =~= before);
        lemma_asked_add(with_cache, rest);
        if verdict_on(tx, answer.intrinsic_gas, answer.basic) is Ok {
            lemma_other_actions(rest.drop_last());
        } else {
            lemma_other_actions(rest);
        }
        assert(cached(admission_asks(queue, answers)) =~= queue);
        assert(offered(admission_asks(queue, answers)) =~= requests(
            sound(queue, answers),
            false,
            false,
        ));
    }
}

/// Where a transaction is among those whose signer was recovered.
proof fn lemma_signed_where_recovered(
    txs: Seq<TransactionWithSignature>,
    replies: Seq<Result<Public, String>>,
)
    requires
        txs.len() == replies.len(),
    ensures
        forall|i: int|
            0 <= i < txs.len() && (#[trigger] replies[i]) is Ok ==> recovered(
                txs,
                replies,
            ).signed.contains(
                Arc::new(SignedTransaction { transaction: txs[i], public: replies[i]->Ok_0 }),
            ),
        forall|j: int|
            0 <= j < recovered(txs, replies).signed.len() ==> exists|i: int|
                0 <= i < txs.len() && (#[trigger] replies[i]) is Ok && txs[i] == (#[trigger] recovered(
                    txs,
                    replies,
                ).signed[j]).transaction && replies[i]->Ok_0 == recovered(txs, replies).signed[j].public,
    decreases txs.len(),
{
    if txs.len() > 0 {
        let last = txs.len() - 1;
        let t = txs.drop_last();
        let r = replies.drop_last();
        lemma_signed_where_recovered(t, r);
        let before = recovered(t, r).signed;
        let now = recovered(txs, replies).signed;
        assert forall|i: int| 0 <= i < txs.len() && (#[trigger] replies[i]) is Ok implies now.contains(
            Arc::new(SignedTransaction { transaction: txs[i], public: replies[i]->Ok_0 }),
        ) by {
            let tx = Arc::new(
                SignedTransaction { transaction: txs[i], public: replies[i]->Ok_0 },
            );
            if i == last {
                assert(now.last() == tx);
            } else {
                assert(r[i] == replies[i]);
                assert(before.contains(tx));
                let j = choose|j: int| 0 <= j < before.len() && before[j] == tx;
                assert(now[j] == tx);
            }
        }
        assert forall|j: int| 0 <= j < now.len() implies exists|i: int|
            0 <= i < txs.len() && (#[trigger] replies[i]) is Ok && txs[i] == (
            #[trigger] now[j]).transaction && replies[i]->Ok_0 == now[j].public by {
            if j < before.len() {
                assert(now[j] == before[j]);
                let i = choose|i: int|
                    0 <= i < t.len() && (#[trigger] r[i]) is Ok && t[i] == before[j].transaction
                        && r[i]->Ok_0 == before[j].public;
                assert(replies[i] == r[i]);
            } else {
                assert(replies[last] is Ok);
            }
        }
    }
}

/// No transaction gets lost: when an insertion is finished, each one that was
/// not cached has passed or is among the failures, by its hash.
pub proof fn no_transaction_is_lost(
    uncached: Seq<TransactionWithSignature>,
    replies: Seq<Result<Public, String>>,
    answers: Seq<Answer>,
    i: int,
)
    requires
        replies.len() == uncached.len(),
        answers.len() == recovered(uncached, replies).signed.len(),
        0 <= i < uncached.len(),
    ensures
        ({
            let all = recovered(uncached, replies);
            ||| rejected(all.failed, all.signed, answers).contains_key(uncached[i].hash)
            ||| exists|j: int|
                0 <= j < accepted(all.signed, answers).len() && (#[trigger] accepted(
                    all.signed,
                    answers,
                )[j]).transaction == uncached[i]
        }),
{
    let all = recovered(uncached, replies);
    let h = uncached[i].hash;
    failed_means_turned_down(all.failed, all.signed, answers, h);
    if replies[i] is Err {
        recovery_reports_failures(uncached, replies, h);
        assert(fails(uncached, replies, i, h));
    } else {
        lemma_signed_where_recovered(uncached, replies);
        let tx = Arc::new(
            SignedTransaction { transaction: uncached[i], public: replies[i]->Ok_0 },
        );
        assert(all.signed.contains(tx));
        let k = choose|k: int| 0 <= k < all.signed.len() && all.signed[k] == tx;
        if turned_down(all.signed, answers, k) {
        } else {
            assert(let_in(all.signed, answers, k));
            passed_means_let_in(all.signed, answers, tx);
            let j = choose|j: int|
                0 <= j < accepted(all.signed, answers).len() && accepted(all.signed, answers)[j]
                    == tx;
            assert(accepted(all.signed, answers)[j].transaction == uncached[i]);
        }
    }
}

/// Nothing passes that was not to be inserted: whatever has passed is one of
/// the transactions that were not cached, with the signer that was recovered
/// for it, and it breaks no rule and was taken by the deferred pool.
pub proof fn only_sound_transactions_pass(
    uncached: Seq<TransactionWithSignature>,
    replies: Seq<Result<Public, String>>,
    answers: Seq<Answer>,
    tx: Arc<SignedTransaction>,
)
    requires
        replies.len() == uncached.len(),
        answers.len() == recovered(uncached, replies).signed.len(),
        accepted(recovered(uncached, replies).signed, answers).contains(tx),
    ensures
        exists|i: int|
            0 <= i < uncached.len() && (#[trigger] replies[i]) is Ok && uncached[i]
                == tx.transaction && replies[i]->Ok_0 == tx.public,
        exists|k: int|
            0 <= k < answers.len() && verdict_on(
                tx,
                (#[trigger] answers[k]).intrinsic_gas,
                answers[k].basic,
            ) is Ok && answers[k].added is Ok,
{
    let signed = recovered(uncached, replies).signed;
    passed_means_let_in(signed, answers, tx);
    lemma_signed_where_recovered(uncached, replies);
    let k = choose|k: int| #[trigger] let_in(signed, answers, k) && signed[k] == tx;
    assert(verdict_on(tx, answers[k].intrinsic_gas, answers[k].basic) is Ok);
}

/// Nothing fails that was not to be inserted: whatever hash is among the
/// failures is that of a transaction that was not cached.
pub proof fn only_inserted_transactions_fail(
    uncached: Seq<TransactionWithSignature>,
    replies: Seq<Result<Public, String>>,
    answers: Seq<Answer>,
    h: H256,
)
    requires
        replies.len() == uncached.len(),
        answers.len() == recovered(uncached, replies).signed.len(),
        rejected(
            recovered(uncached, replies).failed,
            recovered(uncached, replies).signed,
            answers,
        ).contains_key(h),
    ensures
        exists|i: int| 0 <= i < uncached.len() && (#[trigger] uncached[i]).hash == h,
{
    let all = recovered(uncached, replies);
    failed_means_turned_down(all.failed, all.signed, answers, h);
    if all.failed.contains_key(h) {
        recovery_reports_failures(uncached, replies, h);
        let i = choose|i: int| fails(uncached, replies, i, h);
        assert(uncached[i].hash == h);
    } else {
        lemma_signed_where_recovered(uncached, replies);
        let k = choose|k: int|
            #[trigger] turned_down(all.signed, answers, k) && all.signed[k].transaction.hash == h;
        let tx = all.signed[k];
        let i = choose|i: int|
            0 <= i < uncached.len() && (#[trigger] replies[i]) is Ok && uncached[i]
                == tx.transaction && replies[i]->Ok_0 == tx.public;
        assert(uncached[i].hash == h);
    }
}

/// Whether no two transactions have the same hash.
pub open spec fn distinct_hashes(txs: Seq<TransactionWithSignature>) -> bool {
    forall|i: int, j: int|
        0 <= i < j < txs.len() ==> (#[trigger] txs[i]).hash != (#[trigger] txs[j]).hash
}

/// Where no two transactions have the same hash, none both passes and fails, and
/// those that pass and those that fail count up to those that were not cached.
pub proof fn distinct_transactions_pass_or_fail(
    uncached: Seq<TransactionWithSignature>,
    replies: Seq<Result<Public, String>>,
    answers: Seq<Answer>,
)
    requires
        replies.len() == uncached.len(),
        answers.len() == recovered(uncached, replies).signed.len(),
        distinct_hashes(uncached),
    ensures
        ({
            let all = recovered(uncached, replies);
            let passed = accepted(all.signed, answers);
            let failures = rejected(all.failed, all.signed, answers);
            &&& forall|j: int|
                0 <= j < passed.len() ==> !failures.contains_key(
                    (#[trigger] passed[j]).transaction.hash,
                )
            &&& failures.dom().finite()
            &&& passed.len() + failures.dom().len() == uncached.len()
        }),
{
    let all = recovered(uncached, replies);
    let passed = accepted(all.signed, answers);
    let failures = rejected(all.failed, all.signed, answers);
    lemma_recovered_counts(uncached, replies);
    lemma_admission_counts(all.failed, all.signed, answers);
    assert forall|j: int| 0 <= j < passed.len() implies !failures.contains_key(
        (#[trigger] passed[j]).transaction.hash,
    ) by {
        let tx = passed[j];
        assert(passed.contains(tx));
        passed_means_let_in(all.signed, answers, tx);
        failed_means_turned_down(all.failed, all.signed, answers, tx.transaction.hash);
        let i = choose|i: int| #[trigger] let_in(all.signed, answers, i) && all.signed[i] == tx;
        assert(!all.failed.contains_key(all.signed[i].transaction.hash));
        if failures.contains_key(tx.transaction.hash) {
            let k = choose|k: int|
                #[trigger] turned_down(all.signed, answers, k) && all.signed[k].transaction.hash
                    == tx.transaction.hash;
            assert(i != k);
        }
    }
}

/// Recovering the signers of transactions without a hash in common splits them.
proof fn lemma_recovered_counts(
    txs: Seq<TransactionWithSignature>,
    replies: Seq<Result<Public, String>>,
)
    requires
        replies.len() == txs.len(),
        distinct_hashes(txs),
    ensures
        ({
            let all = recovered(txs, replies);
            &&& all.failed.dom().finite()
            &&& all.signed.len() + all.failed.dom().len() == txs.len()
            &&& forall|i: int, j: int|
                0 <= i < j < all.signed.len() ==> (#[trigger] all.signed[i]).transaction.hash != (
                #[trigger] all.signed[j]).transaction.hash
            &&& forall|j: int|
                0 <= j < all.signed.len() ==> !all.failed.contains_key(
                    (#[trigger] all.signed[j]).transaction.hash,
                )
        }),
    decreases txs.len(),
{
    if txs.len() > 0 {
        let t = txs.drop_last();
        let r = replies.drop_last();
        let last = txs.last();
        lemma_recovered_counts(t, r);
        lemma_signed_where_recovered(t, r);
        let before = recovered(t, r);
        let all = recovered(txs, replies);
        assert(!before.failed.contains_key(last.hash)) by {
            recovery_reports_failures(t, r, last.hash);
            if before.failed.contains_key(last.hash) {
                let i = choose|i: int| fails(t, r, i, last.hash);
                assert(txs[i].hash != txs[txs.len() - 1].hash);
            }
        }
        assert forall|j: int| 0 <= j < before.signed.len() implies (
        #[trigger] before.signed[j]).transaction.hash != last.hash by {
            let i = choose|i: int|
                0 <= i < t.len() && (#[trigger] r[i]) is Ok && t[i] == before.signed[j].transaction
                    && r[i]->Ok_0 == before.signed[j].public;
            assert(txs[i].hash != txs[txs.len() - 1].hash);
        }
        if replies.last() is Err {
            assert(all.failed.dom() =~= before.failed.dom().insert(last.hash));
        }
    } else {
        assert(recovered(txs, replies).failed.dom() =~= Set::empty());
    }
}

/// Of transactions without a hash in common, each passes or makes a failure
/// more.
proof fn lemma_admission_counts(
    failures: Map<H256, Seq<char>>,
    queue: Seq<Arc<SignedTransaction>>,
    answers: Seq<Answer>,
)
    requires
        queue.len() == answers.len(),
        failures.dom().finite(),
        forall|i: int, j: int|
            0 <= i < j < queue.len() ==> (#[trigger] queue[i]).transaction.hash != (
            #[trigger] queue[j]).transaction.hash,
        forall|j: int|
            0 <= j < queue.len() ==> !failures.contains_key(
                (#[trigger] queue[j]).transaction.hash,
            ),
    ensures
        rejected(failures, queue, answers).dom().finite(),
        accepted(queue, answers).len() + rejected(failures, queue, answers).dom().len()
            == queue.len() + failures.dom().len(),
    decreases queue.len(),
{
    if queue.len() > 0 {
        let q = queue.drop_last();
        let a = answers.drop_last();
        let h = queue.last().transaction.hash;
        lemma_admission_counts(failures, q, a);
        let before = rejected(failures, q, a);
        assert(!before.contains_key(h)) by {
            failed_means_turned_down(failures, q, a, h);
            assert(!failures.contains_key(queue[queue.len() - 1].transaction.hash));
            if before.contains_key(h) {
                let i = choose|i: int|
                    #[trigger] turned_down(q, a, i) && q[i].transaction.hash == h;
                assert(queue[i].transaction.hash != queue[queue.len() - 1].transaction.hash);
            }
        }
        if admission(queue.last(), answers.last()) is Err {
            assert(rejected(failures, queue, answers).dom() =~= before.dom().insert(h));
        }
    }
}

/// An insertion accounts for every transaction, from the first event to the
/// last. Each one that was not cached passes or fails by its hash, and is cached
/// if its signer was recovered. What passes was not cached before, is signed by
/// the signer that was recovered, keeps to the gas limit and the least gas price,
/// and is to be passed on. What fails was not cached before. What was to be passed
/// on stays so, and what is new there has passed.
pub proof fn an_insertion_accounts_for_every_transaction(
    workers: usize,
    to_propagate: Propagation,
    uncached: Vec<TransactionWithSignature>,
    replies: Seq<Result<Public, String>>,
    outcomes: Seq<SegmentOutcome>,
    order: Seq<usize>,
    answers: Seq<Answer>,
)
    requires
        0 < workers,
        replies.len() == uncached@.len(),
        worked_through(handed_out(workers as int, to_propagate, uncached), replies, outcomes),
        names_each_once(order, workers_used(uncached@.len() as int, workers as int)),
        answers.len() == recovered(uncached@, replies).signed.len(),
    ensures
        ({
            let events = insertion_events(uncached, replies, outcomes, order, answers);
            let end = run(workers as int, to_propagate, InsertionView::fresh(), events);
            let asked = actions(workers as int, to_propagate, InsertionView::fresh(), events);
            let passed = end.1.passed;
            let failures = end.1.failures;
            &&& forall|i: int|
                0 <= i < uncached@.len() ==> failures.contains_key(
                    (#[trigger] uncached@[i]).hash,
                ) || exists|j: int|
                    0 <= j < passed.len() && (#[trigger] passed[j]).transaction == uncached@[i]
            &&& forall|i: int|
                0 <= i < uncached@.len() && (#[trigger] replies[i]) is Ok ==> asked.contains(
                    ActionView::Cache(
                        Arc::new(
                            SignedTransaction {
                                transaction: uncached@[i],
                                public: replies[i]->Ok_0,
                            },
                        ),
                    ),
                )
            &&& forall|j: int|
                0 <= j < passed.len() ==> {
                    let tx = #[trigger] passed[j];
                    &&& exists|i: int|
                        0 <= i < uncached@.len() && (#[trigger] replies[i]) is Ok && uncached@[i]
                            == tx.transaction && replies[i]->Ok_0 == tx.public
                    &&& tx.transaction.gas@ <= 100_000_000
                    &&& 1 <= tx.transaction.gas_price@
                    &&& end.0.contains_key(tx.transaction.hash)
                }
            &&& forall|h: H256| #[trigger]
                failures.contains_key(h) ==> exists|i: int|
                    0 <= i < uncached@.len() && (#[trigger] uncached@[i]).hash == h
            &&& forall|h: H256| #[trigger]
                to_propagate.contains_key(h) ==> end.0.contains_key(h) && end.0[h]
                    == to_propagate[h]
            &&& forall|h: H256| #[trigger]
                end.0.contains_key(h) ==> to_propagate.contains_key(h) || (passed.contains(
                    end.0[h],
                ) && end.0[h].transaction.hash == h)
        }),
{
    let all = recovered(uncached@, replies);
    insertion_lets_the_same_transactions_in(
        workers,
        to_propagate,
        uncached,
        replies,
        outcomes,
        order,
        answers,
    );
    each_transaction_is_offered_once(
        workers,
        to_propagate,
        uncached,
        replies,
        outcomes,
        order,
        answers,
    );
    let events = insertion_events(uncached, replies, outcomes, order, answers);
    let end = run(workers as int, to_propagate, InsertionView::fresh(), events);
    let asked = actions(workers as int, to_propagate, InsertionView::fresh(), events);
    lemma_all_accounted_for(uncached@, replies, answers, end.1.failures, end.1.passed);
    lemma_recovered_are_cached(uncached@, replies, asked);
    lemma_passed_are_sound(to_propagate, uncached@, replies, answers, end.0, end.1.passed);
    lemma_passed_on(to_propagate, all.signed, answers, end.0, end.1.passed);
}

/// Each transaction passes or fails, and nothing else fails.
proof fn lemma_all_accounted_for(
    txs: Seq<TransactionWithSignature>,
    replies: Seq<Result<Public, String>>,
    answers: Seq<Answer>,
    failures: Map<H256, Seq<char>>,
    passed: Seq<Arc<SignedTransaction>>,
)
    requires
        replies.len() == txs.len(),
        answers.len() == recovered(txs, replies).signed.len(),
        failures.dom() == rejected(
            recovered(txs, replies).failed,
            recovered(txs, replies).signed,
            answers,
        ).dom(),
        passed == accepted(recovered(txs, replies).signed, answers),
    ensures
        forall|i: int|
            0 <= i < txs.len() ==> failures.contains_key((#[trigger] txs[i]).hash) || exists|j: int|
                0 <= j < passed.len() && (#[trigger] passed[j]).transaction == txs[i],
        forall|h: H256| #[trigger]
            failures.contains_key(h) ==> exists|i: int|
                0 <= i < txs.len() && (#[trigger] txs[i]).hash == h,
{
    let all = recovered(txs, replies);
    let expected = rejected(all.failed, all.signed, answers);
    assert forall|h: H256| #[trigger] failures.contains_key(h) implies exists|i: int|
        0 <= i < txs.len() && (#[trigger] txs[i]).hash == h by {
        assert(expected.dom().contains(h));
        only_inserted_transactions_fail(txs, replies, answers, h);
    }
    assert forall|i: int| 0 <= i < txs.len() implies failures.contains_key(
        (#[trigger] txs[i]).hash,
    ) || exists|j: int|
        0 <= j < passed.len() && (#[trigger] passed[j]).transaction == txs[i] by {
        no_transaction_is_lost(txs, replies, answers, i);
        assert(expected.contains_key(txs[i].hash) <==> failures.dom().contains(txs[i].hash));
    }
}

/// Each transaction whose signer was recovered is cached.
proof fn lemma_recovered_are_cached(
    txs: Seq<TransactionWithSignature>,
    replies: Seq<Result<Public, String>>,
    asked: Seq<ActionView>,
)
    requires
        replies.len() == txs.len(),
        cached(asked) == recovered(txs, replies).signed,
    ensures
        forall|i: int|
            0 <= i < txs.len() && (#[trigger] replies[i]) is Ok ==> asked.contains(
                ActionView::Cache(
                    Arc::new(SignedTransaction { transaction: txs[i], public: replies[i]->Ok_0 }),
                ),
            ),
{
    assert forall|i: int| 0 <= i < txs.len() && (#[trigger] replies[i]) is Ok implies asked.contains(
        ActionView::Cache(
            Arc::new(SignedTransaction { transaction: txs[i], public: replies[i]->Ok_0 }),
        ),
    ) by {
        let tx = Arc::new(SignedTransaction { transaction: txs[i], public: replies[i]->Ok_0 });
        assert(cached(asked).contains(tx)) by {
            lemma_signed_where_recovered(txs, replies);
        }
        lemma_cached_means_asked(asked, tx);
    }
}

/// What has passed was to be inserted, is sound, and is to be passed on.
proof fn lemma_passed_are_sound(
    to_propagate: Propagation,
    txs: Seq<TransactionWithSignature>,
    replies: Seq<Result<Public, String>>,
    answers: Seq<Answer>,
    after: Propagation,
    passed: Seq<Arc<SignedTransaction>>,
)
    requires
        replies.len() == txs.len(),
        answers.len() == recovered(txs, replies).signed.len(),
        after == propagated(to_propagate, recovered(txs, replies).signed, answers),
        passed == accepted(recovered(txs, replies).signed, answers),
    ensures
        forall|j: int|
            0 <= j < passed.len() ==> {
                let tx = #[trigger] passed[j];
                &&& exists|i: int|
                    0 <= i < txs.len() && (#[trigger] replies[i]) is Ok && txs[i] == tx.transaction
                        && replies[i]->Ok_0 == tx.public
                &&& tx.transaction.gas@ <= 100_000_000
                &&& 1 <= tx.transaction.gas_price@
                &&& after.contains_key(tx.transaction.hash)
            },
{
    assert forall|j: int| 0 <= j < passed.len() implies {
        let tx = #[trigger] passed[j];
        &&& exists|i: int|
            0 <= i < txs.len() && (#[trigger] replies[i]) is Ok && txs[i] == tx.transaction
                && replies[i]->Ok_0 == tx.public
        &&& tx.transaction.gas@ <= 100_000_000
        &&& 1 <= tx.transaction.gas_price@
        &&& after.contains_key(tx.transaction.hash)
    } by {
        let tx = passed[j];
        assert(passed.contains(tx));
        only_sound_transactions_pass(txs, replies, answers, tx);
        passed_means_let_in(recovered(txs, replies).signed, answers, tx);
        let_in_means_passed_on(
            to_propagate,
            recovered(txs, replies).signed,
            answers,
            tx.transaction.hash,
        );
    }
}

/// What was to be passed on stays so, and what is new has passed.
proof fn lemma_passed_on(
    to_propagate: Propagation,
    queue: Seq<Arc<SignedTransaction>>,
    answers: Seq<Answer>,
    after: Propagation,
    passed: Seq<Arc<SignedTransaction>>,
)
    requires
        queue.len() == answers.len(),
        after == propagated(to_propagate, queue, answers),
        passed == accepted(queue, answers),
    ensures
        forall|h: H256| #[trigger]
            to_propagate.contains_key(h) ==> after.contains_key(h) && after[h] == to_propagate[h],
        forall|h: H256| #[trigger]
            after.contains_key(h) ==> to_propagate.contains_key(h) || (passed.contains(after[h])
                && after[h].transaction.hash == h),
{
    assert forall|h: H256| #[trigger] to_propagate.contains_key(h) implies after.contains_key(h)
        && after[h] == to_propagate[h] by {
        let_in_means_passed_on(to_propagate, queue, answers, h);
    }
    assert forall|h: H256| #[trigger] after.contains_key(h) implies to_propagate.contains_key(h)
        || (passed.contains(after[h]) && after[h].transaction.hash == h) by {
        if !to_propagate.contains_key(h) {
            lemma_new_ones_have_passed(to_propagate, queue, answers, h);
        }
    }
}

/// What was to be cached was asked to be.
proof fn lemma_cached_means_asked(asked: Seq<ActionView>, tx: Arc<SignedTransaction>)
    requires
        cached(asked).contains(tx),
    ensures
        asked.contains(ActionView::Cache(tx)),
    decreases asked.len(),
{
    if asked.len() > 0 {
        let before = asked.drop_last();
        if asked.last() == ActionView::Cache(tx) {
            assert(asked[asked.len() - 1] == ActionView::Cache(tx));
        } else {
            let j = choose|j: int| 0 <= j < cached(asked).len() && cached(asked)[j] == tx;
            assert(cached(before)[j] == tx);
            assert(cached(before).contains(tx));
            lemma_cached_means_asked(before, tx);
            let k = choose|k: int| 0 <= k < before.len() && before[k] == ActionView::Cache(tx);
            assert(asked[k] == ActionView::Cache(tx));
        }
    }
}

/// What is newly to be passed on was let in.
proof fn lemma_new_ones_have_passed(
    to_propagate: Propagation,
    queue: Seq<Arc<SignedTransaction>>,
    answers: Seq<Answer>,
    h: H256,
)
    requires
        queue.len() == answers.len(),
        propagated(to_propagate, queue, answers).contains_key(h),
        !to_propagate.contains_key(h),
    ensures
        accepted(queue, answers).contains(propagated(to_propagate, queue, answers)[h]),
        propagated(to_propagate, queue, answers)[h].transaction.hash == h,
    decreases queue.len(),
{
    if queue.len() > 0 {
        let q = queue.drop_last();
        let a = answers.drop_last();
        let before = propagated(to_propagate, q, a);
        let now = accepted(queue, answers);
        if before.contains_key(h) {
            lemma_new_ones_have_passed(to_propagate, q, a, h);
            let j = choose|j: int| 0 <= j < accepted(q, a).len() && accepted(q, a)[j] == before[h];
            assert(now[j] == before[h]);
        } else {
            assert(now[now.len() - 1] == queue.last());
        }
    }
}

} // verus!
