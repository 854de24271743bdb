# txpool

A transaction pool whose decisions are proved with Verus.

- `src/` is the library. It checks transactions against the rules, splits the
  recovery of signers among workers, takes new transactions in step by step,
  keeps the transactions that are to be passed on to the network, and says what
  is to be asked of the deferred pool. Everything in it is verified, and no
  function in it is taken on trust.
- `app/` is the pool as a node uses it: the locks, the worker threads, the
  gauges, timers and log lines, and the calls into the rest of the node. A
  signer that cannot be recovered is logged where it is tried, and a transaction
  that breaks a rule when its insertion is done; what the deferred pool refuses
  is not logged.
- `tests/` runs the library on given values.

An insertion is a conversation. `TransactionPool::insert_new_transactions` is
told an `InsertEvent` and answers with an `InsertAction`; whoever drives it
performs the action and comes back with the next event, until the action is
`Report`. Nothing is asked for before it is needed: a transaction that offers
too much gas, say, is never measured. What comes of the whole conversation, and
what is asked for in it, is stated in `src/insertion_laws.rs`. That it does not
matter how many workers there are, nor which of them is done first, is stated in
`src/recovery_laws.rs`. One thing can depend on that: where segments report
different reasons for the same hash, the one that is done last gives the reason.
That takes failures with the same hash in different segments for different
reasons.
