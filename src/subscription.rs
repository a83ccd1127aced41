//! Pending transactions announced by the mempool's change events.
use crate::types::Transaction;
use vstd::prelude::*;

verus! {

/// A change of the pending-transaction pool.
#[derive(Clone, Debug, PartialEq, Eq)]
pub enum TxsEvent {
    /// A transaction entered the pool.
    Upsert { tx: Transaction },
    /// A transaction left the pool.
    Remove,
}

/// The transactions that the events add, in order.
pub open spec fn upserted(events: Seq<TxsEvent>) -> Seq<Transaction>
    decreases events.len(),
{
    if events.len() == 0 {
        Seq::empty()
    } else {
        let rest = upserted(events.skip(1));
        match events[0] {
            TxsEvent::Upsert { tx } => seq![tx].add(rest),
            TxsEvent::Remove => rest,
        }
    }
}

/// Subscription to transactions entering the pending pool.
#[derive(Clone, Copy, Default)]
pub struct PendingTxsSubscription;

impl PendingTxsSubscription {
    /// The transactions that a batch of pool events adds; `None` where it adds
    /// none, so that the batch is not announced.
    pub fn receive_pending_txs(&self, events: Vec<TxsEvent>) -> (r: Option<Vec<Transaction>>)
        ensures
            match r {
                Some(v) => v@ == upserted(events@) && v@.len() > 0,
                None => upserted(events@).len() == 0,
            },
    {
        let ghost all = events@;
        let mut rest = events;
        let mut txs: Vec<Transaction> = Vec::new();
        while rest.len() > 0
            invariant
                txs@.add(upserted(rest@)) == upserted(all),
            decreases rest@.len(),
        {
            let ghost before = rest@;
            let ev = rest.remove(0);
            assert(rest@ =~= before.skip(1));
            match ev {
                TxsEvent::Upsert { tx } => {
                    assert(txs@.push(tx).add(upserted(rest@)) =~= txs@.add(
                        seq![tx].add(upserted(rest@)),
                    ));
                    txs.push(tx);
                },
                TxsEvent::Remove => {},
            }
        }
        assert(upserted(rest@) =~= Seq::<Transaction>::empty());
        assert(txs@ =~= txs@.add(upserted(rest@)));
        if txs.len() == 0 {
            None
        } else {
            Some(txs)
        }
    }
}

} // verus!
