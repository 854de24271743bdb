//! The pool itself: its settings, the transactions to pass on, and the requests
//! that it makes of the deferred pool.
use crate::maps::extend;
use crate::recovery::INLINE_LIMIT_PER_WORKER;
use crate::rules::{next_check, refusal, text, verdict, NextCheck};
use crate::types::{EpochId, SignedTransaction, H256};
use crate::u256::{decimal, U256};
use std::collections::BTreeMap;
use std::sync::Arc;
use vstd::prelude::*;

verus! {

broadcast use {vstd::std_specs::btree::group_btree_axioms, vstd::laws_cmp::group_laws_cmp};

/// The transactions to pass on to the network, by hash.
pub type Propagation = Map<H256, Arc<SignedTransaction>>;

pub struct TransactionPool {
    /// How many transactions the deferred pool is to hold at the most.
    pub capacity: usize,
    /// How many workers share the recovery of signers.
    pub worker_parallelism: usize,
    /// The transactions to pass on to the network.
    pub to_propagate_trans: BTreeMap<H256, Arc<SignedTransaction>>,
    /// The epoch whose account state counts.
    pub best_executed_epoch: EpochId,
}

/// A transaction to add to the deferred pool.
#[derive(Debug)]
pub struct AddRequest {
    pub transaction: Arc<SignedTransaction>,
    /// Whether the transaction is in a block already.
    pub packed: bool,
    /// Whether it takes the place of another one with its nonce in any case.
    pub force: bool,
}

/// The requests to add each of `txs`, in their order.
pub open spec fn requests(
    txs: Seq<Arc<SignedTransaction>>,
    packed: bool,
    force: bool,
) -> Seq<AddRequest> {
    txs.map_values(
        |transaction: Arc<SignedTransaction>| AddRequest { transaction, packed, force },
    )
}

/// A request is made for each transaction, at its position, and each carries the
/// two marks that it was asked to carry, whatever the transaction.
pub proof fn each_request_carries_its_marks(
    txs: Seq<Arc<SignedTransaction>>,
    packed: bool,
    force: bool,
)
    ensures
        requests(txs, packed, force).len() == txs.len(),
        forall|i: int|
            0 <= i < txs.len() ==> {
                let request = #[trigger] requests(txs, packed, force)[i];
                &&& request.transaction == txs[i]
                &&& request.packed == packed
                &&& request.force == force
            },
{
}

/// Pools with the same settings differ in nothing but the transactions to pass
/// on.
pub proof fn same_settings_leave_none_out(a: TransactionPool, b: TransactionPool)
    ensures
        a.same_settings(b) <==> a.capacity == b.capacity && a.worker_parallelism
            == b.worker_parallelism && a.best_executed_epoch == b.best_executed_epoch,
        a.same_settings(b) && a.to_propagate_trans == b.to_propagate_trans ==> a == b,
{
}

/// What is handed out and put back is what is to be passed on again, and
/// putting it back into a pool that has got `later` in the meantime keeps the
/// rest of `later`.
pub proof fn putting_back_restores(handed_out: Propagation, later: Propagation)
    ensures
        Propagation::empty().union_prefer_right(handed_out) == handed_out,
        handed_out.submap_of(later.union_prefer_right(handed_out)),
        forall|h: H256|
            !handed_out.contains_key(h) ==> (later.contains_key(h)
                <==> #[trigger] later.union_prefer_right(handed_out).contains_key(h)) && (
            later.contains_key(h) ==> later.union_prefer_right(handed_out)[h] == later[h]),
{
    assert(Propagation::empty().union_prefer_right(handed_out) =~= handed_out);
}

impl TransactionPool {
    /// What holds of every pool: there is a worker, and the bound on what is
    /// done without workers is a machine word.
    pub open spec fn valid(&self) -> bool {
        &&& 0 < self.worker_parallelism
        &&& self.worker_parallelism * INLINE_LIMIT_PER_WORKER <= usize::MAX
    }

    /// Whether the two pools differ in the transactions to pass on at the most.
    pub open spec fn same_settings(&self, other: Self) -> bool {
        &&& self.capacity == other.capacity
        &&& self.worker_parallelism == other.worker_parallelism
        &&& self.best_executed_epoch == other.best_executed_epoch
    }

    /// A pool with nothing to pass on, whose best executed epoch is that of the
    /// genesis block.
    pub fn with_capacity(
        capacity: usize,
        worker_parallelism: usize,
        genesis_hash: H256,
    ) -> (r: Self)
        requires
            0 < worker_parallelism <= usize::MAX / INLINE_LIMIT_PER_WORKER,
        ensures
            r.valid(),
            r.capacity == capacity,
            r.worker_parallelism == worker_parallelism,
            r.to_propagate_trans@ == Propagation::empty(),
            r.best_executed_epoch == genesis_hash,
    {
        TransactionPool {
            capacity,
            worker_parallelism,
            to_propagate_trans: BTreeMap::new(),
            best_executed_epoch: genesis_hash,
        }
    }

    /// The nonce and the balance of an account as the deferred pool knows them:
    /// what it found, or zeros.
    pub fn get_local_account_info(&self, found: Option<(U256, U256)>) -> (r: (U256, U256))
        ensures
            match found {
                Some(info) => r == info,
                None => r.0@ == 0 && r.1@ == 0,
            },
            found is None ==> r.0.hi == 0 && r.0.lo == 0 && r.1.hi == 0 && r.1.lo == 0,
    {
        match found {
            Some(info) => info,
            None => (U256::zero(), U256::zero()),
        }
    }

    /// The next step in the verification of a transaction: it is refused, or
    /// something has to be found out first. `intrinsic_gas` is what running it
    /// takes at the least, once that has been worked out.
    pub fn next_check(
        &self,
        transaction: &SignedTransaction,
        intrinsic_gas: Option<u64>,
    ) -> (r: NextCheck)
        ensures
            match r {
                NextCheck::Refused(e) => refusal(
                    transaction.transaction.gas@,
                    transaction.transaction.gas_price@,
                    intrinsic_gas,
                ) == Some(e@),
                NextCheck::IntrinsicGas => intrinsic_gas is None && refusal(
                    transaction.transaction.gas@,
                    transaction.transaction.gas_price@,
                    intrinsic_gas,
                ) is None,
                NextCheck::Form => intrinsic_gas is Some && refusal(
                    transaction.transaction.gas@,
                    transaction.transaction.gas_price@,
                    intrinsic_gas,
                ) is None,
            },
            100_000_000 < transaction.transaction.gas@ ==> r is Refused,
            transaction.transaction.gas@ <= 100_000_000 && intrinsic_gas is None
                ==> r is IntrinsicGas,
            transaction.transaction.gas@ <= 100_000_000 && intrinsic_gas is Some ==> (r is Form
                <==> (intrinsic_gas->0 as usize) <= transaction.transaction.gas@ && 1
                <= transaction.transaction.gas_price@),
            transaction.transaction.gas@ <= 100_000_000 && intrinsic_gas is Some ==> r
                !is IntrinsicGas,
    {
        next_check(
            &transaction.transaction.gas,
            &transaction.transaction.gas_price,
            intrinsic_gas,
        )
    }

    /// Holds a transaction to the rules that have nothing to do with readiness.
    /// Running it takes `intrinsic_gas` at the least, and the checks on its form
    /// ended in `basic`; an error comes as its debug text.
    pub fn verify_transaction(
        &self,
        transaction: &SignedTransaction,
        intrinsic_gas: u64,
        basic: Result<(), String>,
    ) -> (r: Result<(), String>)
        ensures
            text(r) == verdict(
                transaction.transaction.gas@,
                transaction.transaction.gas_price@,
                intrinsic_gas,
                text(basic),
            ),
            match r {
                Ok(()) => {
                    &&& (intrinsic_gas as usize) <= transaction.transaction.gas@ <= 100_000_000
                    &&& 1 <= transaction.transaction.gas_price@
                    &&& basic is Ok
                },
                Err(e) => if 100_000_000 < transaction.transaction.gas@ {
                    e@ == "transaction gas "@ + decimal(transaction.transaction.gas@)
                        + " exceeds the maximum value "@ + decimal(100_000_000)
                } else if transaction.transaction.gas@ < (intrinsic_gas as usize) {
                    e@ == "transaction gas "@ + decimal(transaction.transaction.gas@)
                        + " less than intrinsic gas "@ + decimal(intrinsic_gas as nat)
                } else if transaction.transaction.gas_price@ < 1 {
                    e@ == "transaction gas price "@ + decimal(transaction.transaction.gas_price@)
                        + " less than the minimum value "@ + decimal(1)
                } else {
                    basic is Err && e@ == basic->Err_0@
                },
            },
    {
        match self.next_check(transaction, Some(intrinsic_gas)) {
            NextCheck::Refused(e) => Err(e),
            _ => basic,
        }
    }

    /// The request to add a transaction to the deferred pool and to bring its
    /// readiness up to date.
    pub fn add_transaction_and_check_readiness_without_lock(
        transaction: Arc<SignedTransaction>,
        packed: bool,
        force: bool,
    ) -> (r: AddRequest)
        ensures
            r == (AddRequest { transaction, packed, force }),
    {
        AddRequest { transaction, packed, force }
    }

    /// The requests to add each of `transactions`, in their order.
    fn request_all(
        transactions: Vec<Arc<SignedTransaction>>,
        packed: bool,
        force: bool,
    ) -> (r: Vec<AddRequest>)
        ensures
            r@ == requests(transactions@, packed, force),
            r@.len() == transactions@.len(),
            forall|i: int|
                0 <= i < r@.len() ==> (#[trigger] r@[i]).transaction == transactions@[i]
                    && r@[i].packed == packed && r@[i].force == force,
    {
        let ghost all = transactions@;
        let mut out: Vec<AddRequest> = Vec::new();
        for tx in it: transactions
            invariant
                it.seq() == all,
                out@ == requests(all.take(it.index()), packed, force),
        {
            out.push(
                Self::add_transaction_and_check_readiness_without_lock(tx, packed, force),
            );
            assert(out@ =~= requests(all.take(it.index() + 1), packed, force));
        }
        assert(all.take(all.len() as int) =~= all);
        out
    }

    /// Hands out the transactions to pass on; none is left.
    pub fn get_to_propagate_trans(&mut self) -> (r: BTreeMap<H256, Arc<SignedTransaction>>)
        ensures
            r@ == old(self).to_propagate_trans@,
            final(self).to_propagate_trans@ == Propagation::empty(),
            final(self).same_settings(*old(self)),
            final(self).capacity == old(self).capacity,
            final(self).worker_parallelism == old(self).worker_parallelism,
            final(self).best_executed_epoch == old(self).best_executed_epoch,
    {
        let mut res: BTreeMap<H256, Arc<SignedTransaction>> = BTreeMap::new();
        std::mem::swap(&mut self.to_propagate_trans, &mut res);
        res
    }

    /// Puts `transactions` among those to pass on. Where there is one with the
    /// same hash, the new one takes its place.
    pub fn set_to_propagate_trans(&mut self, transactions: BTreeMap<H256, Arc<SignedTransaction>>)
        ensures
            final(self).to_propagate_trans@ == old(self).to_propagate_trans@.union_prefer_right(
                transactions@,
            ),
            final(self).same_settings(*old(self)),
            final(self).capacity == old(self).capacity,
            final(self).worker_parallelism == old(self).worker_parallelism,
            final(self).best_executed_epoch == old(self).best_executed_epoch,
    {
        extend(&mut self.to_propagate_trans, transactions);
    }

    /// Takes transactions back whose execution failed for their nonce or whose
    /// block is no longer part of the chain. They are to be added in their
    /// order, by force, and whatever the deferred pool answers. `None` is for
    /// no transactions: there is nothing to do, and no state to get.
    pub fn recycle_transactions(&self, transactions: Vec<Arc<SignedTransaction>>) -> (r: Option<
        Vec<AddRequest>,
    >)
        ensures
            match r {
                None => transactions@.len() == 0,
                Some(all) => transactions@.len() > 0 && all@ == requests(
                    transactions@,
                    false,
                    true,
                ),
            },
            r matches Some(all) ==> {
                &&& all@.len() == transactions@.len()
                &&& forall|i: int|
                    0 <= i < all@.len() ==> {
                        &&& (#[trigger] all@[i]).transaction == transactions@[i]
                        &&& !all@[i].packed
                        &&& all@[i].force
                    }
            },
    {
        if transactions.is_empty() {
            // Fast return. Also used for bench mode.
            return None;
        }
        Some(Self::request_all(transactions, false, true))
    }

    /// Drops the transaction from those to pass on.
    pub fn remove_to_propagate(&mut self, tx_hash: &H256)
        ensures
            final(self).to_propagate_trans@ == old(self).to_propagate_trans@.remove(*tx_hash),
            final(self).same_settings(*old(self)),
            final(self).capacity == old(self).capacity,
            final(self).worker_parallelism == old(self).worker_parallelism,
            final(self).best_executed_epoch == old(self).best_executed_epoch,
    {
        self.to_propagate_trans.remove(tx_hash);
    }

    /// Takes note that transactions are in a block. They are to be added in
    /// their order, as packed ones, and whatever the deferred pool answers.
    /// `None` is for no transactions: there is nothing to do, and no state to
    /// get.
    pub fn set_tx_packed(&self, transactions: Vec<Arc<SignedTransaction>>) -> (r: Option<
        Vec<AddRequest>,
    >)
        ensures
            match r {
                None => transactions@.len() == 0,
                Some(all) => transactions@.len() > 0 && all@ == requests(
                    transactions@,
                    true,
                    false,
                ),
            },
            r matches Some(all) ==> {
                &&& all@.len() == transactions@.len()
                &&& forall|i: int|
                    0 <= i < all@.len() ==> {
                        &&& (#[trigger] all@[i]).transaction == transactions@[i]
                        &&& all@[i].packed
                        &&& !all@[i].force
                    }
            },
    {
        if transactions.is_empty() {
            // Fast return. Also used for bench mode.
            return None;
        }
        Some(Self::request_all(transactions, true, false))
    }
}

} // verus!
