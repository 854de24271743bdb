//! Recovering the signers of transactions: how the work is split among the
//! workers, and what comes of it.
use crate::maps::texts;
use crate::recovery_laws::segments_cover;
use crate::types::{Public, SignedTransaction, TransactionWithSignature, H256};
use std::collections::BTreeMap;
use std::sync::Arc;
use vstd::prelude::*;

verus! {

broadcast use {vstd::std_specs::btree::group_btree_axioms, vstd::laws_cmp::group_laws_cmp};

/// From so many transactions for each worker on, the workers share the load.
pub const INLINE_LIMIT_PER_WORKER: usize = 8;

/// Where segment `k` begins, if `n` transactions are split among `workers`
/// workers: each gets the same number, and the first ones one more until
/// nothing is left over.
pub open spec fn segment_start(n: int, workers: int, k: int) -> int {
    k * (n / workers) + if k < n % workers {
        k
    } else {
        n % workers
    }
}

/// Segment `k` of `s`, if `s` is split among `workers` workers.
pub open spec fn segment<T>(s: Seq<T>, workers: int, k: int) -> Seq<T> {
    s.subrange(
        segment_start(s.len() as int, workers, k),
        segment_start(s.len() as int, workers, k + 1),
    )
}

/// The transactions `txs`, split among `workers` workers.
pub open spec fn segments(txs: Seq<TransactionWithSignature>, workers: int) -> Seq<
    Seq<TransactionWithSignature>,
> {
    Seq::new(workers as nat, |k: int| segment(txs, workers, k))
}

/// Each entry of a vector of vectors as a sequence.
pub open spec fn rows<T>(v: Seq<Vec<T>>) -> Seq<Seq<T>> {
    v.map_values(|row: Vec<T>| row@)
}

/// Each row is seen as it is, at its position.
pub proof fn rows_keep_every_row<T>(v: Seq<Vec<T>>)
    ensures
        rows(v).len() == v.len(),
        forall|k: int| 0 <= k < v.len() ==> #[trigger] rows(v)[k] == v[k]@,
{
}

pub proof fn lemma_segment_bounds(n: int, workers: int, k: int)
    requires
        0 < workers,
        0 <= n,
        0 <= k < workers,
    ensures
        segment_start(n, workers, k + 1) == segment_start(n, workers, k) + n / workers + (if k < n
            % workers {
            1int
        } else {
            0
        }),
        0 <= segment_start(n, workers, k),
        segment_start(n, workers, k + 1) <= n,
        segment_start(n, workers, 0) == 0,
        segment_start(n, workers, workers) == n,
{
    let q = n / workers;
    let r = n % workers;
    assert(q >= 0 && 0 <= r < workers && n == workers * q + r) by (nonlinear_arith)
        requires
            q == n / workers,
            r == n % workers,
            0 < workers,
            0 <= n,
    ;
    assert((k + 1) * q == k * q + q) by (nonlinear_arith);
    assert(0 <= k * q) by (nonlinear_arith)
        requires
            0 <= k,
            0 <= q,
    ;
    assert((k + 1) * q <= workers * q) by (nonlinear_arith)
        requires
            k + 1 <= workers,
            0 <= q,
    ;
}

/// Splits `txs` among `workers` workers.
pub fn split(txs: Vec<TransactionWithSignature>, workers: usize) -> (r: Vec<
    Vec<TransactionWithSignature>,
>)
    requires
        0 < workers <= txs@.len(),
    ensures
        rows(r@) == segments(txs@, workers as int),
        r@.len() == workers,
        r@.map_values(|part: Vec<TransactionWithSignature>| part@).flatten() == txs@,
        forall|k: int|
            0 <= k < workers ==> (#[trigger] r@[k])@.len() == txs@.len() / (workers as nat) + (if k
                < txs@.len() % (workers as nat) {
                1int
            } else {
                0
            }),
{
    let tx_num: usize = txs.len();
    let tx_num_per_worker: usize = tx_num / workers;
    let mut remainder: usize = tx_num % workers;
    let mut start_idx: usize = 0;
    let mut end_idx: usize = 0;
    let mut unsigned_trans: Vec<Vec<TransactionWithSignature>> = Vec::new();
    let ghost all = txs@;
    let ghost n = txs@.len() as int;
    let ghost w = workers as int;
    proof {
        lemma_segment_bounds(n, w, 0);
        assert(1 <= n / w) by (nonlinear_arith)
            requires
                0 < w <= n,
        ;
    }
    for tx in it: txs
        invariant
            it.seq() == all,
            all.len() == n == tx_num,
            w == workers,
            0 < w <= n,
            1 <= n / w,
            tx_num_per_worker == n / w,
            start_idx == it.index(),
            unsigned_trans@.len() <= w,
            end_idx == segment_start(n, w, unsigned_trans@.len() as int),
            remainder == (if unsigned_trans@.len() < n % w {
                n % w - unsigned_trans@.len()
            } else {
                0
            }),
            unsigned_trans@.len() == 0 ==> start_idx == 0,
            unsigned_trans@.len() > 0 ==> {
                &&& segment_start(n, w, unsigned_trans@.len() - 1) < start_idx <= end_idx
                &&& unsigned_trans@.last()@ == all.subrange(
                    segment_start(n, w, unsigned_trans@.len() - 1),
                    start_idx as int,
                )
            },
            forall|k: int|
                0 <= k < unsigned_trans@.len() - 1 ==> (#[trigger] unsigned_trans@[k])@
                    == all.subrange(segment_start(n, w, k), segment_start(n, w, k + 1)),
    {
        let ghost before = unsigned_trans@;
        proof {
            lemma_segment_bounds(n, w, 0);
            if before.len() > 0 {
                lemma_segment_bounds(n, w, before.len() - 1);
            }
            if before.len() < w {
                lemma_segment_bounds(n, w, before.len() as int);
            }
        }
        if start_idx == end_idx {
            // A new segment of transactions.
            end_idx = start_idx + tx_num_per_worker;
            if remainder > 0 {
                end_idx += 1;
                remainder -= 1;
            }
            unsigned_trans.push(Vec::new());
        }
        let last: usize = unsigned_trans.len() - 1;
        unsigned_trans[last].push(tx);
        start_idx += 1;
        assert(unsigned_trans@.last()@ =~= all.subrange(
            segment_start(n, w, unsigned_trans@.len() - 1),
            start_idx as int,
        ));
    }
    proof {
        let m = unsigned_trans@.len() as int;
        if m < w {
            lemma_segment_bounds(n, w, m);
        }
        lemma_segment_bounds(n, w, m - 1);
        assert(rows(unsigned_trans@) =~= segments(all, w));
        segments_cover(all, w);
        let parts = unsigned_trans@.map_values(|part: Vec<TransactionWithSignature>| part@);
        assert(parts =~= segments(all, w));
        assert forall|k: int| 0 <= k < w implies (#[trigger] unsigned_trans@[k])@.len() == n / w + (
        if k < n % w {
            1int
        } else {
            0
        }) by {
            assert(parts[k] == unsigned_trans@[k]@);
            assert(segments(all, w)[k].len() == n / w + (if k < n % w {
                1int
            } else {
                0
            }));
        }
    }
    unsigned_trans
}

/// What a transaction is answered whose signer cannot be recovered for the
/// reason `e`.
pub open spec fn recovery_failure(e: Seq<char>) -> Seq<char> {
    "failed to recover the public key: "@ + e
}

/// What comes of recovering signers: the transactions whose signer is known
/// now, and for the others the reason by hash.
#[verifier::ext_equal]
pub struct Recovered {
    pub signed: Seq<Arc<SignedTransaction>>,
    pub failed: Map<H256, Seq<char>>,
}

impl Recovered {
    pub open spec fn nothing() -> Self {
        Recovered { signed: Seq::empty(), failed: Map::empty() }
    }

    /// The same after the recovery of the signer of `tx` ended in `reply`.
    pub open spec fn record(
        self,
        tx: TransactionWithSignature,
        reply: Result<Public, String>,
    ) -> Self {
        match reply {
            Ok(public) => Recovered {
                signed: self.signed.push(Arc::new(SignedTransaction { transaction: tx, public })),
                ..self
            },
            Err(e) => Recovered {
                failed: self.failed.insert(tx.hash, recovery_failure(e@)),
                ..self
            },
        }
    }
}

/// What comes of recovering the signers of `txs` one after the other, if the
/// recovery of the signer of `txs[i]` ends in `replies[i]`.
pub open spec fn recovered(
    txs: Seq<TransactionWithSignature>,
    replies: Seq<Result<Public, String>>,
) -> Recovered
    decreases txs.len(),
{
    if txs.len() == 0 {
        Recovered::nothing()
    } else {
        recovered(txs.drop_last(), replies.drop_last()).record(txs.last(), replies.last())
    }
}

/// A transaction, and what the recovery of its signer ended in.
#[derive(Debug)]
pub struct Attempt {
    pub transaction: TransactionWithSignature,
    pub reply: Result<Public, String>,
}

pub open spec fn attempted(attempts: Seq<Attempt>) -> Seq<TransactionWithSignature> {
    attempts.map_values(|a: Attempt| a.transaction)
}

pub open spec fn replies_to(attempts: Seq<Attempt>) -> Seq<Result<Public, String>> {
    attempts.map_values(|a: Attempt| a.reply)
}

/// Recovering signers sorts transactions. Those whose signer was recovered come
/// out signed by just that signer, all of them and in their order. The others,
/// and no others, are reported by hash; of several with a hash the last one gives
/// the reason.
pub proof fn recovery_sorts_all_transactions(attempts: Seq<Attempt>)
    ensures
        ({
            let all = recovered(attempted(attempts), replies_to(attempts));
            &&& all.signed == attempts.filter(|a: Attempt| a.reply is Ok).map_values(
                |a: Attempt|
                    Arc::new(
                        SignedTransaction {
                            transaction: a.transaction,
                            public: a.reply->Ok_0,
                        },
                    ),
            )
            &&& forall|h: H256| #[trigger]
                all.failed.contains_key(h) <==> exists|i: int|
                    0 <= i < attempts.len() && (#[trigger] attempts[i]).transaction.hash == h
                        && attempts[i].reply is Err
            &&& forall|i: int|
                0 <= i < attempts.len() && (#[trigger] attempts[i]).reply is Err && (forall|j: int|
                    i < j < attempts.len() && (#[trigger] attempts[j]).reply is Err
                        ==> attempts[j].transaction.hash != attempts[i].transaction.hash)
                    ==> all.failed[attempts[i].transaction.hash]
                    == "failed to recover the public key: "@ + attempts[i].reply->Err_0@
        }),
    decreases attempts.len(),
{
    let all = recovered(attempted(attempts), replies_to(attempts));
    let ok = |a: Attempt| a.reply is Ok;
    let sign = |a: Attempt|
        Arc::new(SignedTransaction { transaction: a.transaction, public: a.reply->Ok_0 });
    reveal(Seq::filter);
    if attempts.len() == 0 {
        assert(all.signed =~= attempts.filter(ok).map_values(sign));
    } else {
        let t = attempts.drop_last();
        let last = attempts.last();
        let n = attempts.len() - 1;
        recovery_sorts_all_transactions(t);
        assert(attempted(attempts).drop_last() =~= attempted(t));
        assert(replies_to(attempts).drop_last() =~= replies_to(t));
        let before = recovered(attempted(t), replies_to(t));
        assert(all == before.record(last.transaction, last.reply));
        assert(all.signed =~= attempts.filter(ok).map_values(sign));
        assert forall|h: H256| #[trigger]
            all.failed.contains_key(h) <==> exists|i: int|
                0 <= i < attempts.len() && (#[trigger] attempts[i]).transaction.hash == h
                    && attempts[i].reply is Err by {
            if before.failed.contains_key(h) {
                let i = choose|i: int|
                    0 <= i < t.len() && (#[trigger] t[i]).transaction.hash == h && t[i].reply is Err;
                assert(attempts[i] == t[i]);
            }
            if last.reply is Err && last.transaction.hash == h {
                assert(attempts[n].transaction.hash == h);
            }
            if exists|i: int|
                0 <= i < attempts.len() && (#[trigger] attempts[i]).transaction.hash == h
                    && attempts[i].reply is Err {
                let i = choose|i: int|
                    0 <= i < attempts.len() && (#[trigger] attempts[i]).transaction.hash == h
                        && attempts[i].reply is Err;
                if i < n {
                    assert(t[i] == attempts[i]);
                }
            }
        }
        assert forall|i: int|
            0 <= i < attempts.len() && (#[trigger] attempts[i]).reply is Err && (forall|j: int|
                i < j < attempts.len() && (#[trigger] attempts[j]).reply is Err
                    ==> attempts[j].transaction.hash != attempts[i].transaction.hash) implies
            all.failed[attempts[i].transaction.hash] == "failed to recover the public key: "@
            + attempts[i].reply->Err_0@ by {
            if i < n {
                assert(t[i] == attempts[i]);
                assert forall|j: int|
                    i < j < t.len() && (#[trigger] t[j]).reply is Err implies t[j].transaction.hash
                    != t[i].transaction.hash by {
                    assert(attempts[j] == t[j]);
                }
                if last.reply is Err {
                    assert(attempts[n].transaction.hash != attempts[i].transaction.hash);
                }
            }
        }
    }
}

/// The attempts are made of the transactions and the replies, one of each at
/// each position.
pub proof fn attempts_come_apart(attempts: Seq<Attempt>)
    ensures
        attempted(attempts).len() == attempts.len(),
        replies_to(attempts).len() == attempts.len(),
        forall|i: int|
            0 <= i < attempts.len() ==> #[trigger] attempted(attempts)[i]
                == attempts[i].transaction,
        forall|i: int|
            0 <= i < attempts.len() ==> #[trigger] replies_to(attempts)[i] == attempts[i].reply,
{
}

/// What comes of one segment.
#[derive(Debug)]
pub struct SegmentOutcome {
    pub signed: Vec<Arc<SignedTransaction>>,
    pub failed: BTreeMap<H256, String>,
}

impl View for SegmentOutcome {
    type V = Recovered;

    open spec fn view(&self) -> Recovered {
        Recovered { signed: self.signed@, failed: texts(self.failed@) }
    }
}

/// The outcome of a segment is seen as it is: its signed transactions in their
/// order, and each failure with its words.
pub proof fn an_outcome_is_seen_as_it_is(outcome: SegmentOutcome)
    ensures
        outcome@.signed == outcome.signed@,
        forall|h: H256| #[trigger]
            outcome@.failed.contains_key(h) <==> outcome.failed@.contains_key(h),
        forall|h: H256| #[trigger]
            outcome.failed@.contains_key(h) ==> outcome@.failed[h] == outcome.failed@[h]@,
{
}

impl SegmentOutcome {
    /// What comes of a segment. Each transaction comes with what the recovery
    /// of its signer ended in; an error comes as its debug text.
    pub fn of(attempts: Vec<Attempt>) -> (r: Self)
        ensures
            r@ == recovered(attempted(attempts@), replies_to(attempts@)),
            r.signed@ == attempts@.filter(|a: Attempt| a.reply is Ok).map_values(
                |a: Attempt|
                    Arc::new(
                        SignedTransaction {
                            transaction: a.transaction,
                            public: a.reply->Ok_0,
                        },
                    ),
            ),
            forall|h: H256| #[trigger]
                r.failed@.contains_key(h) <==> exists|i: int|
                    0 <= i < attempts@.len() && (#[trigger] attempts@[i]).transaction.hash == h
                        && attempts@[i].reply is Err,
            forall|i: int|
                0 <= i < attempts@.len() && (#[trigger] attempts@[i]).reply is Err && (forall|
                    j: int,
                |
                    i < j < attempts@.len() && (#[trigger] attempts@[j]).reply is Err
                        ==> attempts@[j].transaction.hash != attempts@[i].transaction.hash)
                    ==> r.failed@[attempts@[i].transaction.hash]@
                    == "failed to recover the public key: "@ + attempts@[i].reply->Err_0@,
    {
        let ghost all = attempts@;
        let mut r = SegmentOutcome { signed: Vec::new(), failed: BTreeMap::new() };
        assert(r@ =~= Recovered::nothing());
        for attempt in it: attempts
            invariant
                it.seq() == all,
                r@ == recovered(
                    attempted(all.take(it.index())),
                    replies_to(all.take(it.index())),
                ),
        {
            proof {
                let before = all.take(it.index());
                let now = all.take(it.index() + 1);
                assert(attempted(now).drop_last() =~= attempted(before));
                assert(replies_to(now).drop_last() =~= replies_to(before));
            }
            r.record(attempt.transaction, attempt.reply);
        }
        assert(all.take(all.len() as int) =~= all);
        proof {
            recovery_sorts_all_transactions(all);
            an_outcome_is_seen_as_it_is(r);
            assert forall|i: int|
                0 <= i < all.len() && (#[trigger] all[i]).reply is Err implies
                r.failed@.contains_key(all[i].transaction.hash) by {
                assert(r@.failed.contains_key(all[i].transaction.hash));
            }
            assert forall|h: H256| #[trigger]
                r.failed@.contains_key(h) <==> exists|i: int|
                    0 <= i < all.len() && (#[trigger] all[i]).transaction.hash == h
                        && all[i].reply is Err by {
                assert(r@.failed.contains_key(h) <==> r.failed@.contains_key(h));
            }
        }
        r
    }

    /// Takes in that the recovery of the signer of `tx` ended in `reply`.
    fn record(&mut self, tx: TransactionWithSignature, reply: Result<Public, String>)
        ensures
            final(self)@ == old(self)@.record(tx, reply),
    {
        match reply {
            Ok(public) => {
                self.signed.push(Arc::new(SignedTransaction::new(public, tx)));
            },
            Err(e) => {
                let mut message = "failed to recover the public key: ".to_owned();
                message.append(e.as_str());
                self.failed.insert(tx.hash, message);
            },
        }
        assert(self@ =~= old(self)@.record(tx, reply));
    }
}

} // verus!
