//! Inserting new transactions, step by step.
//!
//! Recovering signers, reading the state of accounts and adding to the
//! deferred pool happen elsewhere. An insertion tells what is to be done next
//! and is told what came of it, until it is finished.
use crate::maps::{extend, texts};
use crate::pool::{AddRequest, Propagation, TransactionPool};
use crate::recovery::{
    rows, segments, split, Recovered, SegmentOutcome, INLINE_LIMIT_PER_WORKER,
};
use crate::rules::{refusal, text, verdict, NextCheck};
use crate::types::{SignedTransaction, TransactionWithSignature, H256};
use std::collections::BTreeMap;
use std::sync::Arc;
use vstd::prelude::*;

verus! {

broadcast use {vstd::std_specs::btree::group_btree_axioms, vstd::laws_cmp::group_laws_cmp};

/// What an insertion waits for.
#[derive(Clone, Copy, Debug, PartialEq, Eq, Structural)]
pub enum Stage {
    /// The transactions that are not cached.
    Start,
    /// Segments whose signers are being recovered.
    Recovering,
    /// The account state of the best executed epoch.
    Opening,
    /// That the transaction whose turn it is has been cached.
    Caching,
    /// The gas that the transaction whose turn it is takes at the least.
    Measuring,
    /// The checks on the form of the transaction whose turn it is.
    Forming,
    /// The answer of the deferred pool to the transaction whose turn it is.
    Adding,
    /// Nothing any more.
    Finished,
}

/// What came of the last action.
pub enum InsertEvent {
    /// Of the transactions to insert, these are not cached.
    Uncached(Vec<TransactionWithSignature>),
    /// The signers of a segment have been recovered.
    Recovered { index: usize, outcome: SegmentOutcome },
    /// The account state is there, and nobody else touches the deferred pool.
    Opened,
    /// The transaction has been cached.
    Cached,
    /// The transaction takes so much gas at the least.
    Measured(u64),
    /// The checks on the form of the transaction ended so; an error comes as
    /// its debug text.
    Formed(Result<(), String>),
    /// The deferred pool has taken the transaction, or has not.
    Added(Result<(), String>),
}

/// What is to be done next.
pub enum InsertAction {
    /// Recover these signers on this thread, as segment zero.
    RecoverInline(Vec<TransactionWithSignature>),
    /// Recover the signers of each of these segments on a worker.
    RecoverOnWorkers(Vec<Vec<TransactionWithSignature>>),
    /// Wait for one more segment.
    AwaitSegment,
    /// Get the account state of the best executed epoch, and take hold of the
    /// deferred pool.
    Open,
    /// Cache the transaction under its hash.
    Cache(Arc<SignedTransaction>),
    /// Work out the gas that the transaction takes at the least: it goes by
    /// whether the transaction creates a contract, and by its data.
    Measure { transaction: Arc<SignedTransaction>, is_create: bool },
    /// Check the form of the transaction.
    CheckForm(Arc<SignedTransaction>),
    /// Add the transaction to the deferred pool.
    Add(AddRequest),
    /// Report what passed and what failed.
    Report,
}

/// An insertion under way.
pub struct Insertion {
    stage: Stage,
    /// The transactions with known signers, by segment.
    signed_trans: Vec<Vec<Arc<SignedTransaction>>>,
    /// The number of segments that are still out.
    awaited: usize,
    /// The transactions with known signers, all in a row.
    queue: Vec<Arc<SignedTransaction>>,
    /// The position in the queue of the transaction whose turn it is.
    next: usize,
    failures: BTreeMap<H256, String>,
    passed_transactions: Vec<Arc<SignedTransaction>>,
}

/// An action, over sequences.
#[verifier::ext_equal]
pub enum ActionView {
    RecoverInline(Seq<TransactionWithSignature>),
    RecoverOnWorkers(Seq<Seq<TransactionWithSignature>>),
    AwaitSegment,
    Open,
    Cache(Arc<SignedTransaction>),
    Measure { transaction: Arc<SignedTransaction>, is_create: bool },
    CheckForm(Arc<SignedTransaction>),
    Add(AddRequest),
    Report,
}

impl View for InsertAction {
    type V = ActionView;

    open spec fn view(&self) -> ActionView {
        match *self {
            InsertAction::RecoverInline(txs) => ActionView::RecoverInline(txs@),
            InsertAction::RecoverOnWorkers(parts) => ActionView::RecoverOnWorkers(rows(parts@)),
            InsertAction::AwaitSegment => ActionView::AwaitSegment,
            InsertAction::Open => ActionView::Open,
            InsertAction::Cache(tx) => ActionView::Cache(tx),
            InsertAction::Measure { transaction, is_create } => ActionView::Measure {
                transaction,
                is_create,
            },
            InsertAction::CheckForm(tx) => ActionView::CheckForm(tx),
            InsertAction::Add(request) => ActionView::Add(request),
            InsertAction::Report => ActionView::Report,
        }
    }
}

/// An insertion, over sequences and maps.
#[verifier::ext_equal]
pub struct InsertionView {
    pub stage: Stage,
    pub signed_trans: Seq<Seq<Arc<SignedTransaction>>>,
    pub awaited: int,
    pub queue: Seq<Arc<SignedTransaction>>,
    pub next: int,
    pub failures: Map<H256, Seq<char>>,
    pub passed: Seq<Arc<SignedTransaction>>,
}

impl View for Insertion {
    type V = InsertionView;

    closed spec fn view(&self) -> InsertionView {
        InsertionView {
            stage: self.stage,
            signed_trans: rows(self.signed_trans@),
            awaited: self.awaited as int,
            queue: self.queue@,
            next: self.next as int,
            failures: texts(self.failures@),
            passed: self.passed_transactions@,
        }
    }
}

/// Where an event takes an insertion.
#[verifier::ext_equal]
pub struct Step {
    /// The transactions to pass on.
    pub to_propagate: Propagation,
    pub insertion: InsertionView,
    pub action: ActionView,
}

impl InsertionView {
    /// An insertion of which nothing has been done.
    pub open spec fn fresh() -> Self {
        InsertionView {
            stage: Stage::Start,
            signed_trans: Seq::empty(),
            awaited: 0,
            queue: Seq::empty(),
            next: 0,
            failures: Map::empty(),
            passed: Seq::empty(),
        }
    }

    /// Whether it is the turn of a transaction.
    pub open spec fn has_turn(self) -> bool {
        ||| self.stage == Stage::Caching
        ||| self.stage == Stage::Measuring
        ||| self.stage == Stage::Forming
        ||| self.stage == Stage::Adding
    }

    /// What holds between two steps.
    pub open spec fn valid(self) -> bool {
        &&& self.stage == Stage::Recovering ==> 0 < self.awaited
        &&& self.stage == Stage::Opening ==> self.next == 0
        &&& self.has_turn() ==> 0 <= self.next < self.queue.len()
        &&& self.stage == Stage::Finished ==> self.next == self.queue.len()
    }

    /// Whether `event` is one that the insertion waits for.
    pub open spec fn expects(self, event: InsertEvent) -> bool {
        match event {
            InsertEvent::Uncached(_) => self.stage == Stage::Start,
            InsertEvent::Recovered { index, .. } => self.stage == Stage::Recovering && index
                < self.signed_trans.len(),
            InsertEvent::Opened => self.stage == Stage::Opening,
            InsertEvent::Cached => self.stage == Stage::Caching,
            InsertEvent::Measured(_) => self.stage == Stage::Measuring,
            InsertEvent::Formed(_) => self.stage == Stage::Forming,
            InsertEvent::Added(_) => self.stage == Stage::Adding,
        }
    }

    /// The transaction whose turn it is.
    pub open spec fn current(self) -> Arc<SignedTransaction> {
        self.queue[self.next]
    }

    /// The same with the signers to recover handed out in `count` segments.
    pub open spec fn hand_out(self, count: int) -> Self {
        InsertionView {
            stage: Stage::Recovering,
            signed_trans: Seq::new(count as nat, |k: int| Seq::empty()),
            awaited: count,
            ..self
        }
    }

    /// The same after the outcome of segment `index` has come in. The last one
    /// to come puts the transactions in a row, segment after segment.
    pub open spec fn arrive(self, index: int, outcome: Recovered) -> Self {
        let signed_trans = self.signed_trans.update(index, outcome.signed);
        let failures = self.failures.union_prefer_right(outcome.failed);
        if self.awaited > 1 {
            InsertionView { signed_trans, awaited: self.awaited - 1, failures, ..self }
        } else {
            InsertionView {
                stage: Stage::Opening,
                signed_trans: Seq::empty(),
                awaited: 0,
                queue: signed_trans.flatten(),
                next: 0,
                failures,
                ..self
            }
        }
    }

    /// What is to be done when a segment has come in.
    pub open spec fn arrive_action(self) -> ActionView {
        if self.awaited > 0 {
            ActionView::AwaitSegment
        } else {
            ActionView::Open
        }
    }

    /// The same with the turn at position `next` of the queue.
    pub open spec fn turn(self, next: int) -> Self {
        InsertionView {
            stage: if next < self.queue.len() {
                Stage::Caching
            } else {
                Stage::Finished
            },
            next,
            ..self
        }
    }

    /// The same after the transaction whose turn it is has failed for the
    /// reason `e`.
    pub open spec fn fail(self, e: Seq<char>) -> Self {
        InsertionView {
            failures: self.failures.insert(self.current().transaction.hash, e),
            ..self
        }.turn(self.next + 1)
    }

    /// The same after the transaction whose turn it is has passed.
    pub open spec fn pass(self) -> Self {
        InsertionView { passed: self.passed.push(self.current()), ..self }.turn(self.next + 1)
    }

    /// What is to be done when it is somebody's turn, or nobody's any more.
    pub open spec fn turn_action(self) -> ActionView {
        if self.next < self.queue.len() {
            ActionView::Cache(self.current())
        } else {
            ActionView::Report
        }
    }
}

/// The transactions to pass on, with `tx` among them: it takes no place that
/// is taken.
pub open spec fn propagate(
    to_propagate: Propagation,
    tx: Arc<SignedTransaction>,
) -> Propagation {
    if to_propagate.contains_key(tx.transaction.hash) {
        to_propagate
    } else {
        to_propagate.insert(tx.transaction.hash, tx)
    }
}

/// The step when the transaction whose turn it is fails for the reason `e`.
pub open spec fn failed(to_propagate: Propagation, insertion: InsertionView, e: Seq<char>) -> Step {
    Step {
        to_propagate,
        insertion: insertion.fail(e),
        action: insertion.fail(e).turn_action(),
    }
}

/// Why a transaction is refused by the rules, as far as is known.
pub open spec fn refusal_of(tx: Arc<SignedTransaction>, intrinsic_gas: Option<u64>) -> Option<
    Seq<char>,
> {
    refusal(tx.transaction.gas@, tx.transaction.gas_price@, intrinsic_gas)
}

/// What a transaction is answered by the rules, given what the checks on it
/// gave.
pub open spec fn verdict_on(
    tx: Arc<SignedTransaction>,
    intrinsic_gas: u64,
    basic: Result<(), String>,
) -> Result<(), Seq<char>> {
    verdict(tx.transaction.gas@, tx.transaction.gas_price@, intrinsic_gas, text(basic))
}

/// Where `event` takes an insertion, if there are `workers` workers.
pub open spec fn insert_step(
    workers: int,
    to_propagate: Propagation,
    insertion: InsertionView,
    event: InsertEvent,
) -> Step {
    match event {
        InsertEvent::Uncached(txs) => if txs@.len() < workers * INLINE_LIMIT_PER_WORKER {
            Step {
                to_propagate,
                insertion: insertion.hand_out(1),
                action: ActionView::RecoverInline(txs@),
            }
        } else {
            Step {
                to_propagate,
                insertion: insertion.hand_out(workers),
                action: ActionView::RecoverOnWorkers(segments(txs@, workers)),
            }
        },
        InsertEvent::Recovered { index, outcome } => {
            let arrived = insertion.arrive(index as int, outcome@);
            Step { to_propagate, insertion: arrived, action: arrived.arrive_action() }
        },
        InsertEvent::Opened => {
            let started = insertion.turn(0);
            Step { to_propagate, insertion: started, action: started.turn_action() }
        },
        InsertEvent::Cached => match refusal_of(insertion.current(), None) {
            Some(e) => failed(to_propagate, insertion, e),
            None => Step {
                to_propagate,
                insertion: InsertionView { stage: Stage::Measuring, ..insertion },
                action: ActionView::Measure {
                    transaction: insertion.current(),
                    is_create: insertion.current().transaction.action is Create,
                },
            },
        },
        InsertEvent::Measured(intrinsic_gas) => match refusal_of(
            insertion.current(),
            Some(intrinsic_gas),
        ) {
            Some(e) => failed(to_propagate, insertion, e),
            None => Step {
                to_propagate,
                insertion: InsertionView { stage: Stage::Forming, ..insertion },
                action: ActionView::CheckForm(insertion.current()),
            },
        },
        InsertEvent::Formed(Ok(())) => Step {
            to_propagate,
            insertion: InsertionView { stage: Stage::Adding, ..insertion },
            action: ActionView::Add(
                AddRequest { transaction: insertion.current(), packed: false, force: false },
            ),
        },
        InsertEvent::Formed(Err(e)) => failed(to_propagate, insertion, e@),
        InsertEvent::Added(Ok(())) => Step {
            to_propagate: propagate(to_propagate, insertion.current()),
            insertion: insertion.pass(),
            action: insertion.pass().turn_action(),
        },
        InsertEvent::Added(Err(e)) => failed(to_propagate, insertion, e@),
    }
}

impl Insertion {
    /// An insertion of which nothing has been done.
    pub fn new() -> (r: Self)
        ensures
            r@ == InsertionView::fresh(),
            r@.valid(),
            r@.stage == Stage::Start,
            r@.failures.dom() == Set::<H256>::empty(),
            r@.passed.len() == 0,
    {
        let r = Insertion {
            stage: Stage::Start,
            signed_trans: Vec::new(),
            awaited: 0,
            queue: Vec::new(),
            next: 0,
            failures: BTreeMap::new(),
            passed_transactions: Vec::new(),
        };
        assert(r@ =~= InsertionView::fresh());
        r
    }

    /// Whether `event` is one that the insertion waits for.
    pub fn accepts(&self, event: &InsertEvent) -> (r: bool)
        ensures
            r == self@.expects(*event),
            r == match *event {
                InsertEvent::Uncached(_) => self@.stage == Stage::Start,
                InsertEvent::Recovered { index, .. } => self@.stage == Stage::Recovering && index
                    < self@.signed_trans.len(),
                InsertEvent::Opened => self@.stage == Stage::Opening,
                InsertEvent::Cached => self@.stage == Stage::Caching,
                InsertEvent::Measured(_) => self@.stage == Stage::Measuring,
                InsertEvent::Formed(_) => self@.stage == Stage::Forming,
                InsertEvent::Added(_) => self@.stage == Stage::Adding,
            },
    {
        match event {
            InsertEvent::Uncached(_) => self.stage == Stage::Start,
            InsertEvent::Recovered { index, .. } => self.stage == Stage::Recovering && *index
                < self.signed_trans.len(),
            InsertEvent::Opened => self.stage == Stage::Opening,
            InsertEvent::Cached => self.stage == Stage::Caching,
            InsertEvent::Measured(_) => self.stage == Stage::Measuring,
            InsertEvent::Formed(_) => self.stage == Stage::Forming,
            InsertEvent::Added(_) => self.stage == Stage::Adding,
        }
    }

    /// Hands the signers to recover out in `count` segments.
    fn hand_out(&mut self, count: usize)
        ensures
            final(self)@ == old(self)@.hand_out(count as int),
    {
        self.stage = Stage::Recovering;
        self.awaited = count;
        self.signed_trans = Vec::new();
        for k in 0..count
            invariant
                self.signed_trans@.len() == k,
                forall|j: int| 0 <= j < k ==> (#[trigger] self.signed_trans@[j])@ == Seq::<
                    Arc<SignedTransaction>,
                >::empty(),
                self.stage == Stage::Recovering,
                self.awaited == count,
                self.queue == old(self).queue,
                self.next == old(self).next,
                self.failures == old(self).failures,
                self.passed_transactions == old(self).passed_transactions,
        {
            self.signed_trans.push(Vec::new());
        }
        assert(self@ =~~= old(self)@.hand_out(count as int));
    }

    /// Gives the turn to position `next` of the queue, and tells what is to be
    /// done there.
    fn turn(&mut self, next: usize) -> (action: InsertAction)
        requires
            next <= old(self).queue@.len(),
        ensures
            final(self)@ == old(self)@.turn(next as int),
            action@ == final(self)@.turn_action(),
    {
        self.next = next;
        if next < self.queue.len() {
            self.stage = Stage::Caching;
            InsertAction::Cache(self.queue[next].clone())
        } else {
            self.stage = Stage::Finished;
            InsertAction::Report
        }
    }

    /// Takes in that the transaction whose turn it is has failed.
    fn fail(&mut self, e: String) -> (action: InsertAction)
        requires
            old(self).next < old(self).queue@.len(),
        ensures
            final(self)@ == old(self)@.fail(e@),
            action@ == final(self)@.turn_action(),
    {
        let hash: H256 = self.queue[self.next].hash();
        self.failures.insert(hash, e);
        assert(texts(self.failures@) =~= texts(old(self).failures@).insert(hash, e@));
        assert(self.next < self.queue.len());
        let next: usize = self.next + 1;
        self.turn(next)
    }

    /// Takes in the outcome of segment `index`.
    fn arrive(&mut self, index: usize, outcome: SegmentOutcome) -> (action: InsertAction)
        requires
            old(self)@.valid(),
            old(self).stage == Stage::Recovering,
            index < old(self).signed_trans@.len(),
        ensures
            final(self)@ == old(self)@.arrive(index as int, outcome@),
            action@ == final(self)@.arrive_action(),
    {
        let SegmentOutcome { signed, failed } = outcome;
        self.signed_trans[index] = signed;
        extend(&mut self.failures, failed);
        self.awaited = self.awaited - 1;
        proof {
            assert(rows(self.signed_trans@) =~= rows(old(self).signed_trans@).update(
                index as int,
                outcome@.signed,
            ));
            assert(texts(self.failures@) =~= texts(old(self).failures@).union_prefer_right(
                outcome@.failed,
            ));
        }
        if self.awaited > 0 {
            return InsertAction::AwaitSegment;
        }
        let mut parts: Vec<Vec<Arc<SignedTransaction>>> = Vec::new();
        std::mem::swap(&mut self.signed_trans, &mut parts);
        let ghost all = rows(parts@);
        let mut queue: Vec<Arc<SignedTransaction>> = Vec::new();
        for part in it: parts
            invariant
                rows(it.seq()) == all,
                queue@ == all.take(it.index()).flatten(),
        {
            let mut part = part;
            proof {
                let k = it.index();
                assert(all[k] == part@);
                assert(all.take(k + 1) =~= all.take(k).push(part@));
                all.take(k).lemma_flatten_push(part@);
            }
            queue.append(&mut part);
        }
        assert(all.take(all.len() as int) =~= all);
        self.queue = queue;
        self.next = 0;
        self.stage = Stage::Opening;
        assert(rows(self.signed_trans@) =~= Seq::empty());
        InsertAction::Open
    }

    /// What passed, and why the others failed.
    pub fn into_report(self) -> (r: (Vec<Arc<SignedTransaction>>, BTreeMap<H256, String>))
        ensures
            r.0@ == self@.passed,
            texts(r.1@) == self@.failures,
            forall|h: H256| #[trigger]
                r.1@.contains_key(h) <==> self@.failures.contains_key(h),
            forall|h: H256| #[trigger] r.1@.contains_key(h) ==> r.1@[h]@ == self@.failures[h],
    {
        (self.passed_transactions, self.failures)
    }
}

impl TransactionPool {
    /// Takes an insertion one step further: it is told what came of the last
    /// action, and tells what is to be done next.
    pub fn insert_new_transactions(
        &mut self,
        insertion: &mut Insertion,
        event: InsertEvent,
    ) -> (action: InsertAction)
        requires
            old(self).valid(),
            old(insertion)@.valid(),
            old(insertion)@.expects(event),
        ensures
            final(self).valid(),
            final(insertion)@.valid(),
            (Step {
                to_propagate: final(self).to_propagate_trans@,
                insertion: final(insertion)@,
                action: action@,
            }) == insert_step(
                old(self).worker_parallelism as int,
                old(self).to_propagate_trans@,
                old(insertion)@,
                event,
            ),
            final(self).same_settings(*old(self)),
            final(self).capacity == old(self).capacity,
            final(self).worker_parallelism == old(self).worker_parallelism,
            final(self).best_executed_epoch == old(self).best_executed_epoch,
            match action {
                InsertAction::RecoverInline(all) => event matches InsertEvent::Uncached(txs)
                    && all@ == txs@ && txs@.len() < old(self).worker_parallelism * 8,
                InsertAction::RecoverOnWorkers(parts) => {
                    &&& event matches InsertEvent::Uncached(txs)
                    &&& txs@.len() >= old(self).worker_parallelism * 8
                    &&& parts@.len() == old(self).worker_parallelism
                    &&& parts@.map_values(|part: Vec<TransactionWithSignature>| part@).flatten()
                        == txs@
                },
                InsertAction::AwaitSegment => final(insertion)@.awaited > 0,
                InsertAction::Open => final(insertion)@.awaited == 0,
                InsertAction::Cache(tx) => tx == final(insertion)@.queue[final(insertion)@.next],
                InsertAction::Measure { transaction, is_create } => {
                    &&& transaction == final(insertion)@.queue[final(insertion)@.next]
                    &&& is_create == (transaction.transaction.action is Create)
                },
                InsertAction::CheckForm(tx) => tx
                    == final(insertion)@.queue[final(insertion)@.next],
                InsertAction::Add(request) => {
                    &&& request.transaction == final(insertion)@.queue[final(insertion)@.next]
                    &&& !request.packed
                    &&& !request.force
                },
                InsertAction::Report => final(insertion)@.next == final(insertion)@.queue.len(),
            },
    {
        match event {
            InsertEvent::Uncached(txs) => {
                if txs.len() < self.worker_parallelism * INLINE_LIMIT_PER_WORKER {
                    insertion.hand_out(1);
                    InsertAction::RecoverInline(txs)
                } else {
                    insertion.hand_out(self.worker_parallelism);
                    InsertAction::RecoverOnWorkers(split(txs, self.worker_parallelism))
                }
            },
            InsertEvent::Recovered { index, outcome } => insertion.arrive(index, outcome),
            InsertEvent::Opened => insertion.turn(0),
            InsertEvent::Cached => {
                let tx = insertion.queue[insertion.next].clone();
                match self.next_check(&*tx, None) {
                    NextCheck::Refused(e) => insertion.fail(e),
                    _ => {
                        insertion.stage = Stage::Measuring;
                        let is_create: bool = tx.is_create();
                        InsertAction::Measure { transaction: tx, is_create }
                    },
                }
            },
            InsertEvent::Measured(intrinsic_gas) => {
                let tx = insertion.queue[insertion.next].clone();
                match self.next_check(&*tx, Some(intrinsic_gas)) {
                    NextCheck::Refused(e) => insertion.fail(e),
                    _ => {
                        insertion.stage = Stage::Forming;
                        InsertAction::CheckForm(tx)
                    },
                }
            },
            InsertEvent::Formed(Ok(())) => {
                let tx = insertion.queue[insertion.next].clone();
                insertion.stage = Stage::Adding;
                InsertAction::Add(
                    Self::add_transaction_and_check_readiness_without_lock(tx, false, false),
                )
            },
            InsertEvent::Formed(Err(e)) => insertion.fail(e),
            InsertEvent::Added(Ok(())) => {
                let tx = insertion.queue[insertion.next].clone();
                let hash: H256 = tx.hash();
                if !self.to_propagate_trans.contains_key(&hash) {
                    self.to_propagate_trans.insert(hash, tx.clone());
                }
                insertion.passed_transactions.push(tx);
                assert(insertion.next < insertion.queue.len());
                let next: usize = insertion.next + 1;
                insertion.turn(next)
            },
            InsertEvent::Added(Err(e)) => insertion.fail(e),
        }
    }
}

} // verus!
