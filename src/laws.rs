//! Laws that relate the ledger's operations.
use crate::index::IndexItem;
use crate::ledger::{
    applied, apply_inputs, apply_outcome, apply_outputs, balance_of, consumed, credit, debit,
    inputs_total, origin_output, output_credits_fit, outputs_total, revert_input, revert_inputs,
    revert_outcome, revert_outputs, reverted, source_script, sources_known, spendable,
    LedgerError, LedgerModel, WriteModel,
};
use crate::script_hash::text_hash_of;
use crate::types::{Blockstamp, SourceId, Transaction, TxInput, TxOutput, TxRecord, Utxo};
use vstd::prelude::*;
use vstd::set::fold::*;

verus! {

/// Applying inputs adds every input's funding-script hash to the issuer set
/// and leaves the recipient accumulator alone.
proof fn lemma_inputs_issuers(
    txs: Map<Seq<u8>, TxRecord>,
    m: WriteModel,
    inputs: Seq<TxInput>,
    block_number: u32,
    tx_hash: Seq<u8>,
)
    ensures
        apply_inputs(txs, m, inputs, block_number, tx_hash).by_recipient == m.by_recipient,
        forall|i: int|
            0 <= i < inputs.len() ==> apply_inputs(txs, m, inputs, block_number, tx_hash).issuers.contains(
                text_hash_of(#[trigger] source_script(txs, inputs[i].id)->0),
            ),
    decreases inputs.len(),
{
    if inputs.len() > 0 {
        let prev = inputs.drop_last();
        lemma_inputs_issuers(txs, m, prev, block_number, tx_hash);
        assert forall|i: int| 0 <= i < inputs.len() implies apply_inputs(
            txs,
            m,
            inputs,
            block_number,
            tx_hash,
        ).issuers.contains(text_hash_of(#[trigger] source_script(txs, inputs[i].id)->0)) by {
            if i < inputs.len() - 1 {
                assert(inputs[i] == prev[i]);
            }
        }
    }
}

/// Self-transfer exclusion: when a transaction's only output pays a script
/// whose hash is that of one of its inputs' funding scripts, applying it adds
/// nothing to the recipient accumulator.
pub proof fn lemma_self_transfer_not_received(
    l: LedgerModel,
    tx: Transaction,
    block_number: u32,
    tx_hash: Seq<u8>,
    by_issuer: Set<IndexItem>,
    by_recipient: Set<IndexItem>,
    funding_input: int,
)
    requires
        tx.outputs@.len() == 1,
        0 <= funding_input < tx.inputs@.len(),
        text_hash_of(source_script(l.txs, tx.inputs@[funding_input].id)->0) == text_hash_of(
            tx.outputs@[0].script@,
        ),
    ensures
        applied(l, tx, block_number, tx_hash, by_issuer, by_recipient).by_recipient
            == by_recipient,
{
    let start = WriteModel {
        utxos: l.utxos,
        balances: l.balances,
        issuers: Set::empty(),
        by_issuer,
        by_recipient,
    };
    lemma_inputs_issuers(l.txs, start, tx.inputs@, block_number, tx_hash);
    let after = apply_inputs(l.txs, start, tx.inputs@, block_number, tx_hash);
    let outs = tx.outputs@;
    assert(after.issuers.contains(
        text_hash_of(source_script(l.txs, tx.inputs@[funding_input].id)->0),
    ));
    assert(outs.drop_last() =~= Seq::empty());
    assert(apply_outputs(after, outs.drop_last(), block_number, tx_hash) == after);
    assert(outs.last() == outs[0]);
}

/// Whether some input consumes the unspent output `k`.
pub open spec fn consumes(inputs: Seq<TxInput>, k: (Seq<u8>, usize)) -> bool {
    exists|i: int| 0 <= i < inputs.len() && #[trigger] consumed(inputs[i].id) == Some(k)
}

/// Whether `k` names one of the first `n` outputs of `tx_hash`.
pub open spec fn written_by(k: (Seq<u8>, usize), tx_hash: Seq<u8>, n: nat) -> bool {
    k.0 == tx_hash && (k.1 as nat) < n
}

/// The unspent output that reverting rebuilds for a consumed source.
pub open spec fn rebuilt(txs: Map<Seq<u8>, TxRecord>, input: TxInput) -> Utxo {
    let u = input.id->Utxo_0;
    Utxo {
        amount: input.amount,
        script: origin_output(txs, u).script,
        written_block: txs[u.tx_hash@].written_block.number,
    }
}

proof fn lemma_apply_inputs_utxos(
    txs: Map<Seq<u8>, TxRecord>,
    m: WriteModel,
    inputs: Seq<TxInput>,
    bn: u32,
    txh: Seq<u8>,
)
    ensures
        forall|k: (Seq<u8>, usize)|
            !consumes(inputs, k) ==> (#[trigger] apply_inputs(txs, m, inputs, bn, txh).utxos.contains_key(k)
                == m.utxos.contains_key(k) && (m.utxos.contains_key(k) ==> apply_inputs(txs, m, inputs, bn, txh).utxos[k] == m.utxos[k])),
    decreases inputs.len(),
{
    if inputs.len() > 0 {
        let prev = inputs.drop_last();
        lemma_apply_inputs_utxos(txs, m, prev, bn, txh);
        assert forall|k: (Seq<u8>, usize)| !consumes(inputs, k) implies !consumes(prev, k) by {
            if consumes(prev, k) {
                let i = choose|i: int| 0 <= i < prev.len() && #[trigger] consumed(prev[i].id) == Some(k);
                assert(consumed(inputs[i].id) == Some(k));
            }
        }
        let r = apply_inputs(txs, m, inputs, bn, txh);
        let p = apply_inputs(txs, m, prev, bn, txh);
        assert(r == crate::ledger::apply_input(txs, p, inputs.last(), bn, txh));
        assert forall|k: (Seq<u8>, usize)| !consumes(inputs, k) implies (#[trigger] r.utxos.contains_key(k)
                == m.utxos.contains_key(k) && (m.utxos.contains_key(k) ==> r.utxos[k] == m.utxos[k])) by {
            assert(inputs.last() == inputs[inputs.len() - 1]);
            assert(consumed(inputs.last().id) != Some(k));
            assert(!consumes(prev, k));
            assert(p.utxos.contains_key(k) == m.utxos.contains_key(k));
        }
    }
}

proof fn lemma_apply_outputs_utxos(m: WriteModel, outputs: Seq<TxOutput>, bn: u32, txh: Seq<u8>)
    requires
        outputs.len() <= usize::MAX,
    ensures
        forall|k: (Seq<u8>, usize)|
            !written_by(k, txh, outputs.len()) ==> (#[trigger] apply_outputs(m, outputs, bn, txh).utxos.contains_key(k)
                == m.utxos.contains_key(k) && (m.utxos.contains_key(k) ==> apply_outputs(m, outputs, bn, txh).utxos[k] == m.utxos[k])),
        forall|j: int|
            0 <= j < outputs.len() ==> #[trigger] apply_outputs(m, outputs, bn, txh).utxos.contains_key(
                (txh, j as usize),
            ),
    decreases outputs.len(),
{
    if outputs.len() > 0 {
        let prev = outputs.drop_last();
        lemma_apply_outputs_utxos(m, prev, bn, txh);
        let r = apply_outputs(m, outputs, bn, txh);
        let p = apply_outputs(m, prev, bn, txh);
        let last_key = (txh, (outputs.len() - 1) as usize);
        assert(r.utxos == p.utxos.insert(
            last_key,
            Utxo { amount: outputs.last().amount, script: outputs.last().script, written_block: bn },
        ));
        assert forall|k: (Seq<u8>, usize)|
            !written_by(k, txh, outputs.len()) implies (#[trigger] r.utxos.contains_key(k)
                == m.utxos.contains_key(k) && (m.utxos.contains_key(k) ==> r.utxos[k] == m.utxos[k])) by {
            assert(!written_by(k, txh, prev.len()));
            assert(k != last_key);
            assert(p.utxos.contains_key(k) == m.utxos.contains_key(k));
            assert(m.utxos.contains_key(k) ==> p.utxos[k] == m.utxos[k]);
        }
        assert forall|j: int| 0 <= j < outputs.len() implies #[trigger] r.utxos.contains_key(
            (txh, j as usize),
        ) by {
            if j < outputs.len() - 1 {
                assert(p.utxos.contains_key((txh, j as usize)));
            }
        }
    }
}

proof fn lemma_revert_outputs_utxos(m: WriteModel, outputs: Seq<TxOutput>, bn: u32, txh: Seq<u8>)
    requires
        outputs.len() <= usize::MAX,
    ensures
        forall|k: (Seq<u8>, usize)|
            !written_by(k, txh, outputs.len()) ==> (#[trigger] revert_outputs(m, outputs, bn, txh).utxos.contains_key(k)
                == m.utxos.contains_key(k) && (m.utxos.contains_key(k) ==> revert_outputs(m, outputs, bn, txh).utxos[k] == m.utxos[k])),
        forall|k: (Seq<u8>, usize)|
            written_by(k, txh, outputs.len()) ==> !(#[trigger] revert_outputs(m, outputs, bn, txh).utxos.contains_key(k)),
    decreases outputs.len(),
{
    if outputs.len() > 0 {
        let prev = outputs.drop_last();
        lemma_revert_outputs_utxos(m, prev, bn, txh);
        let r = revert_outputs(m, outputs, bn, txh);
        let p = revert_outputs(m, prev, bn, txh);
        let last_key = (txh, (outputs.len() - 1) as usize);
        assert(r.utxos == p.utxos.remove(last_key));
        assert forall|k: (Seq<u8>, usize)|
            !written_by(k, txh, outputs.len()) implies (#[trigger] r.utxos.contains_key(k)
                == m.utxos.contains_key(k) && (m.utxos.contains_key(k) ==> r.utxos[k] == m.utxos[k])) by {
            assert(!written_by(k, txh, prev.len()));
            assert(k != last_key);
        }
        assert forall|k: (Seq<u8>, usize)|
            written_by(k, txh, outputs.len()) implies !(#[trigger] r.utxos.contains_key(k)) by {
            if k != last_key {
                assert(written_by(k, txh, prev.len()));
            }
        }
    }
}

/// No source is consumed twice.
pub open spec fn distinct_consumption(inputs: Seq<TxInput>) -> bool {
    forall|i: int, j: int|
        0 <= i < inputs.len() && 0 <= j < inputs.len() && i != j && (#[trigger] consumed(inputs[i].id)).is_some()
            ==> consumed(inputs[i].id) != #[trigger] consumed(inputs[j].id)
}

proof fn lemma_revert_inputs_utxos(
    txs: Map<Seq<u8>, TxRecord>,
    m: WriteModel,
    inputs: Seq<TxInput>,
    bn: u32,
    txh: Seq<u8>,
)
    requires
        distinct_consumption(inputs),
    ensures
        forall|k: (Seq<u8>, usize)|
            !consumes(inputs, k) ==> (#[trigger] revert_inputs(txs, m, inputs, bn, txh).utxos.contains_key(k)
                == m.utxos.contains_key(k) && (m.utxos.contains_key(k) ==> revert_inputs(txs, m, inputs, bn, txh).utxos[k] == m.utxos[k])),
        forall|i: int|
            0 <= i < inputs.len() && (#[trigger] consumed(inputs[i].id)).is_some() ==> {
                &&& revert_inputs(txs, m, inputs, bn, txh).utxos.contains_key(consumed(inputs[i].id)->0)
                &&& revert_inputs(txs, m, inputs, bn, txh).utxos[consumed(inputs[i].id)->0]
                    == rebuilt(txs, inputs[i])
            },
    decreases inputs.len(),
{
    if inputs.len() > 0 {
        let prev = inputs.drop_last();
        assert(distinct_consumption(prev)) by {
            assert forall|i: int, j: int|
                0 <= i < prev.len() && 0 <= j < prev.len() && i != j && (#[trigger] consumed(prev[i].id)).is_some()
                    implies consumed(prev[i].id) != #[trigger] consumed(prev[j].id) by {
                assert(prev[i] == inputs[i] && prev[j] == inputs[j]);
            }
        }
        lemma_revert_inputs_utxos(txs, m, prev, bn, txh);
        let last = inputs.last();
        assert(last == inputs[inputs.len() - 1]);
        let r = revert_inputs(txs, m, inputs, bn, txh);
        let p = revert_inputs(txs, m, prev, bn, txh);
        assert(r == revert_input(txs, p, last, bn, txh));
        assert forall|k: (Seq<u8>, usize)| !consumes(inputs, k) implies (#[trigger] r.utxos.contains_key(k)
                == m.utxos.contains_key(k) && (m.utxos.contains_key(k) ==> r.utxos[k] == m.utxos[k])) by {
            if consumes(prev, k) {
                let i = choose|i: int| 0 <= i < prev.len() && #[trigger] consumed(prev[i].id) == Some(k);
                assert(consumed(inputs[i].id) == Some(k));
            }
            assert(consumed(last.id) != Some(k));
            assert(p.utxos.contains_key(k) == m.utxos.contains_key(k));
            assert(m.utxos.contains_key(k) ==> p.utxos[k] == m.utxos[k]);
        }
        assert forall|i: int|
            0 <= i < inputs.len() && (#[trigger] consumed(inputs[i].id)).is_some() implies {
                &&& revert_inputs(txs, m, inputs, bn, txh).utxos.contains_key(consumed(inputs[i].id)->0)
                &&& revert_inputs(txs, m, inputs, bn, txh).utxos[consumed(inputs[i].id)->0]
                    == rebuilt(txs, inputs[i])
            } by {
            if i < inputs.len() - 1 {
                assert(prev[i] == inputs[i]);
                assert(consumed(inputs[i].id) != consumed(inputs[inputs.len() - 1].id));
            }
        }
    }
}

/// Sum of the amounts of the inputs that `s` funds.
pub open spec fn debited_on(txs: Map<Seq<u8>, TxRecord>, inputs: Seq<TxInput>, s: Seq<char>) -> nat
    decreases inputs.len(),
{
    if inputs.len() == 0 {
        0
    } else {
        debited_on(txs, inputs.drop_last(), s) + if source_script(txs, inputs.last().id)->0 == s {
            inputs.last().amount as nat
        } else {
            0
        }
    }
}

/// Sum of the amounts of the outputs that pay `s`.
pub open spec fn credited_on(outputs: Seq<TxOutput>, s: Seq<char>) -> nat
    decreases outputs.len(),
{
    if outputs.len() == 0 {
        0
    } else {
        credited_on(outputs.drop_last(), s) + if outputs.last().script@ == s {
            outputs.last().amount as nat
        } else {
            0
        }
    }
}

/// No stored balance is zero: a script that holds nothing has no entry.
pub open spec fn no_zero(b: Map<Seq<char>, u64>) -> bool {
    forall|s: Seq<char>| #[trigger] b.contains_key(s) ==> b[s] > 0
}

pub open spec fn inputs_positive(inputs: Seq<TxInput>) -> bool {
    forall|i: int| 0 <= i < inputs.len() ==> (#[trigger] inputs[i]).amount > 0
}

pub open spec fn outputs_positive(outputs: Seq<TxOutput>) -> bool {
    forall|j: int| 0 <= j < outputs.len() ==> (#[trigger] outputs[j]).amount > 0
}

proof fn lemma_apply_inputs_balances(
    txs: Map<Seq<u8>, TxRecord>,
    m: WriteModel,
    inputs: Seq<TxInput>,
    bn: u32,
    txh: Seq<u8>,
)
    requires
        no_zero(m.balances),
        inputs_positive(inputs),
        forall|s: Seq<char>| #[trigger] debited_on(txs, inputs, s) <= balance_of(m.balances, s),
    ensures
        no_zero(apply_inputs(txs, m, inputs, bn, txh).balances),
        forall|s: Seq<char>|
            #[trigger] balance_of(apply_inputs(txs, m, inputs, bn, txh).balances, s) == balance_of(
                m.balances,
                s,
            ) - debited_on(txs, inputs, s),
    decreases inputs.len(),
{
    if inputs.len() > 0 {
        let prev = inputs.drop_last();
        let last = inputs.last();
        assert(last == inputs[inputs.len() - 1]);
        assert(inputs_positive(prev)) by {
            assert forall|i: int| 0 <= i < prev.len() implies (#[trigger] prev[i]).amount > 0 by {
                assert(prev[i] == inputs[i]);
            }
        }
        assert forall|s: Seq<char>| #[trigger] debited_on(txs, prev, s) <= balance_of(m.balances, s) by {
            assert(debited_on(txs, prev, s) <= debited_on(txs, inputs, s));
        }
        lemma_apply_inputs_balances(txs, m, prev, bn, txh);
        let p = apply_inputs(txs, m, prev, bn, txh);
        let s0 = source_script(txs, last.id)->0;
        assert(debited_on(txs, inputs, s0) == debited_on(txs, prev, s0) + last.amount);
        assert(balance_of(p.balances, s0) >= last.amount);
        assert(p.balances.contains_key(s0));
        let r = apply_inputs(txs, m, inputs, bn, txh);
        assert(r.balances == crate::ledger::debit(p.balances, s0, last.amount));
        assert forall|s: Seq<char>|
            #[trigger] balance_of(r.balances, s) == balance_of(m.balances, s) - debited_on(txs, inputs, s) by {
            if s != s0 {
                assert(balance_of(r.balances, s) == balance_of(p.balances, s));
            }
        }
    }
}

proof fn lemma_revert_outputs_balances(m: WriteModel, outputs: Seq<TxOutput>, bn: u32, txh: Seq<u8>)
    requires
        no_zero(m.balances),
        outputs_positive(outputs),
        forall|s: Seq<char>| #[trigger] credited_on(outputs, s) <= balance_of(m.balances, s),
    ensures
        no_zero(revert_outputs(m, outputs, bn, txh).balances),
        forall|s: Seq<char>|
            #[trigger] balance_of(revert_outputs(m, outputs, bn, txh).balances, s) == balance_of(
                m.balances,
                s,
            ) - credited_on(outputs, s),
    decreases outputs.len(),
{
    if outputs.len() > 0 {
        let prev = outputs.drop_last();
        let last = outputs.last();
        assert(last == outputs[outputs.len() - 1]);
        assert(outputs_positive(prev)) by {
            assert forall|j: int| 0 <= j < prev.len() implies (#[trigger] prev[j]).amount > 0 by {
                assert(prev[j] == outputs[j]);
            }
        }
        assert forall|s: Seq<char>| #[trigger] credited_on(prev, s) <= balance_of(m.balances, s) by {
            assert(credited_on(prev, s) <= credited_on(outputs, s));
        }
        lemma_revert_outputs_balances(m, prev, bn, txh);
        let p = revert_outputs(m, prev, bn, txh);
        let s0 = last.script@;
        assert(credited_on(outputs, s0) == credited_on(prev, s0) + last.amount);
        assert(balance_of(p.balances, s0) >= last.amount);
        assert(p.balances.contains_key(s0));
        let r = revert_outputs(m, outputs, bn, txh);
        assert(r.balances == crate::ledger::debit(p.balances, s0, last.amount));
        assert forall|s: Seq<char>|
            #[trigger] balance_of(r.balances, s) == balance_of(m.balances, s) - credited_on(outputs, s) by {
            if s != s0 {
                assert(balance_of(r.balances, s) == balance_of(p.balances, s));
            }
        }
    }
}

proof fn lemma_apply_outputs_balances(m: WriteModel, outputs: Seq<TxOutput>, bn: u32, txh: Seq<u8>)
    requires
        no_zero(m.balances),
        outputs_positive(outputs),
        forall|s: Seq<char>| #[trigger] balance_of(m.balances, s) + credited_on(outputs, s) <= u64::MAX,
    ensures
        no_zero(apply_outputs(m, outputs, bn, txh).balances),
        forall|s: Seq<char>|
            #[trigger] balance_of(apply_outputs(m, outputs, bn, txh).balances, s) == balance_of(
                m.balances,
                s,
            ) + credited_on(outputs, s),
    decreases outputs.len(),
{
    if outputs.len() > 0 {
        let prev = outputs.drop_last();
        let last = outputs.last();
        assert(last == outputs[outputs.len() - 1]);
        assert(outputs_positive(prev)) by {
            assert forall|j: int| 0 <= j < prev.len() implies (#[trigger] prev[j]).amount > 0 by {
                assert(prev[j] == outputs[j]);
            }
        }
        assert forall|s: Seq<char>| #[trigger] balance_of(m.balances, s) + credited_on(prev, s) <= u64::MAX by {
            assert(credited_on(prev, s) <= credited_on(outputs, s));
        }
        lemma_apply_outputs_balances(m, prev, bn, txh);
        let p = apply_outputs(m, prev, bn, txh);
        let s0 = last.script@;
        assert(credited_on(outputs, s0) == credited_on(prev, s0) + last.amount);
        assert(balance_of(m.balances, s0) + credited_on(outputs, s0) <= u64::MAX);
        let r = apply_outputs(m, outputs, bn, txh);
        assert(r.balances == crate::ledger::credit(p.balances, s0, last.amount));
        assert forall|s: Seq<char>|
            #[trigger] balance_of(r.balances, s) == balance_of(m.balances, s) + credited_on(outputs, s) by {
            if s != s0 {
                assert(balance_of(r.balances, s) == balance_of(p.balances, s));
            }
        }
    }
}

proof fn lemma_revert_inputs_balances(
    txs: Map<Seq<u8>, TxRecord>,
    m: WriteModel,
    inputs: Seq<TxInput>,
    bn: u32,
    txh: Seq<u8>,
)
    requires
        no_zero(m.balances),
        inputs_positive(inputs),
        forall|s: Seq<char>| #[trigger] balance_of(m.balances, s) + debited_on(txs, inputs, s) <= u64::MAX,
    ensures
        no_zero(revert_inputs(txs, m, inputs, bn, txh).balances),
        forall|s: Seq<char>|
            #[trigger] balance_of(revert_inputs(txs, m, inputs, bn, txh).balances, s) == balance_of(
                m.balances,
                s,
            ) + debited_on(txs, inputs, s),
    decreases inputs.len(),
{
    if inputs.len() > 0 {
        let prev = inputs.drop_last();
        let last = inputs.last();
        assert(last == inputs[inputs.len() - 1]);
        assert(inputs_positive(prev)) by {
            assert forall|i: int| 0 <= i < prev.len() implies (#[trigger] prev[i]).amount > 0 by {
                assert(prev[i] == inputs[i]);
            }
        }
        assert forall|s: Seq<char>| #[trigger] balance_of(m.balances, s) + debited_on(txs, prev, s) <= u64::MAX by {
            assert(debited_on(txs, prev, s) <= debited_on(txs, inputs, s));
        }
        lemma_revert_inputs_balances(txs, m, prev, bn, txh);
        let p = revert_inputs(txs, m, prev, bn, txh);
        let s0 = source_script(txs, last.id)->0;
        assert(debited_on(txs, inputs, s0) == debited_on(txs, prev, s0) + last.amount);
        assert(balance_of(m.balances, s0) + debited_on(txs, inputs, s0) <= u64::MAX);
        let r = revert_inputs(txs, m, inputs, bn, txh);
        assert(r.balances == crate::ledger::credit(p.balances, s0, last.amount));
        assert forall|s: Seq<char>|
            #[trigger] balance_of(r.balances, s) == balance_of(m.balances, s) + debited_on(txs, inputs, s) by {
            if s != s0 {
                assert(balance_of(r.balances, s) == balance_of(p.balances, s));
            }
        }
    }
}

/// Two balance tables without zero entries that agree on every balance are
/// equal.
proof fn lemma_balances_ext(a: Map<Seq<char>, u64>, b: Map<Seq<char>, u64>)
    requires
        no_zero(a),
        no_zero(b),
        forall|s: Seq<char>| #[trigger] balance_of(a, s) == balance_of(b, s),
    ensures
        a == b,
{
    assert forall|s: Seq<char>| a.contains_key(s) == b.contains_key(s) by {
        assert(balance_of(a, s) == balance_of(b, s));
    }
    assert forall|s: Seq<char>| a.contains_key(s) implies a[s] == b[s] by {
        assert(balance_of(a, s) == balance_of(b, s));
    }
    assert(a =~= b);
}

proof fn lemma_credited_within_total(outputs: Seq<TxOutput>, s: Seq<char>)
    ensures
        credited_on(outputs, s) <= outputs_total(outputs),
    decreases outputs.len(),
{
    if outputs.len() > 0 {
        lemma_credited_within_total(outputs.drop_last(), s);
    }
}

proof fn lemma_debited_within_total(txs: Map<Seq<u8>, TxRecord>, inputs: Seq<TxInput>, s: Seq<char>)
    ensures
        debited_on(txs, inputs, s) <= inputs_total(inputs),
    decreases inputs.len(),
{
    if inputs.len() > 0 {
        lemma_debited_within_total(txs, inputs.drop_last(), s);
    }
}

/// The issuer-index member that an input yields.
pub open spec fn issuer_item(txs: Map<Seq<u8>, TxRecord>, input: TxInput, bn: u32, txh: Seq<u8>) -> IndexItem {
    ((text_hash_of(source_script(txs, input.id)->0), bn), txh)
}

/// The recipient-index member that an output may yield.
pub open spec fn recipient_item(output: TxOutput, bn: u32, txh: Seq<u8>) -> IndexItem {
    ((text_hash_of(output.script@), bn), txh)
}

proof fn lemma_apply_inputs_index(
    txs: Map<Seq<u8>, TxRecord>,
    m: WriteModel,
    inputs: Seq<TxInput>,
    bn: u32,
    txh: Seq<u8>,
)
    ensures
        apply_inputs(txs, m, inputs, bn, txh).by_recipient == m.by_recipient,
        forall|x: IndexItem|
            #[trigger] apply_inputs(txs, m, inputs, bn, txh).by_issuer.contains(x) ==> m.by_issuer.contains(x)
                || exists|i: int| 0 <= i < inputs.len() && x == issuer_item(txs, inputs[i], bn, txh),
    decreases inputs.len(),
{
    if inputs.len() > 0 {
        let prev = inputs.drop_last();
        lemma_apply_inputs_index(txs, m, prev, bn, txh);
        let r = apply_inputs(txs, m, inputs, bn, txh);
        let p = apply_inputs(txs, m, prev, bn, txh);
        assert forall|x: IndexItem| #[trigger] r.by_issuer.contains(x) implies m.by_issuer.contains(x)
            || exists|i: int| 0 <= i < inputs.len() && x == issuer_item(txs, inputs[i], bn, txh) by {
            if x == issuer_item(txs, inputs.last(), bn, txh) {
                assert(inputs.last() == inputs[inputs.len() - 1]);
            } else {
                assert(p.by_issuer.contains(x));
                if !m.by_issuer.contains(x) {
                    let i = choose|i: int| 0 <= i < prev.len() && x == issuer_item(txs, prev[i], bn, txh);
                    assert(prev[i] == inputs[i]);
                }
            }
        }
    }
}

proof fn lemma_apply_outputs_index(m: WriteModel, outputs: Seq<TxOutput>, bn: u32, txh: Seq<u8>)
    ensures
        apply_outputs(m, outputs, bn, txh).by_issuer == m.by_issuer,
        forall|x: IndexItem|
            #[trigger] apply_outputs(m, outputs, bn, txh).by_recipient.contains(x) ==> m.by_recipient.contains(x)
                || exists|j: int| 0 <= j < outputs.len() && x == recipient_item(outputs[j], bn, txh),
    decreases outputs.len(),
{
    if outputs.len() > 0 {
        let prev = outputs.drop_last();
        lemma_apply_outputs_index(m, prev, bn, txh);
        let r = apply_outputs(m, outputs, bn, txh);
        let p = apply_outputs(m, prev, bn, txh);
        assert forall|x: IndexItem| #[trigger] r.by_recipient.contains(x) implies m.by_recipient.contains(x)
            || exists|j: int| 0 <= j < outputs.len() && x == recipient_item(outputs[j], bn, txh) by {
            if x == recipient_item(outputs.last(), bn, txh) {
                assert(outputs.last() == outputs[outputs.len() - 1]);
            } else {
                assert(p.by_recipient.contains(x));
                if !m.by_recipient.contains(x) {
                    let j = choose|j: int| 0 <= j < prev.len() && x == recipient_item(prev[j], bn, txh);
                    assert(prev[j] == outputs[j]);
                }
            }
        }
    }
}

proof fn lemma_revert_outputs_index(m: WriteModel, outputs: Seq<TxOutput>, bn: u32, txh: Seq<u8>)
    ensures
        revert_outputs(m, outputs, bn, txh).by_issuer == m.by_issuer,
        forall|x: IndexItem|
            #[trigger] revert_outputs(m, outputs, bn, txh).by_recipient.contains(x) <==> m.by_recipient.contains(x)
                && forall|j: int| 0 <= j < outputs.len() ==> x != recipient_item(outputs[j], bn, txh),
    decreases outputs.len(),
{
    if outputs.len() > 0 {
        let prev = outputs.drop_last();
        lemma_revert_outputs_index(m, prev, bn, txh);
        let r = revert_outputs(m, outputs, bn, txh);
        let p = revert_outputs(m, prev, bn, txh);
        assert(outputs.last() == outputs[outputs.len() - 1]);
        assert forall|x: IndexItem| #[trigger] r.by_recipient.contains(x) <==> m.by_recipient.contains(x)
            && forall|j: int| 0 <= j < outputs.len() ==> x != recipient_item(outputs[j], bn, txh) by {
            if r.by_recipient.contains(x) {
                assert forall|j: int| 0 <= j < outputs.len() implies x != recipient_item(outputs[j], bn, txh) by {
                    if j < outputs.len() - 1 {
                        assert(prev[j] == outputs[j]);
                    }
                }
            }
            if m.by_recipient.contains(x) && forall|j: int| 0 <= j < outputs.len() ==> x != recipient_item(outputs[j], bn, txh) {
                assert forall|j: int| 0 <= j < prev.len() implies x != recipient_item(prev[j], bn, txh) by {
                    assert(prev[j] == outputs[j]);
                }
            }
        }
    }
}

proof fn lemma_revert_inputs_index(
    txs: Map<Seq<u8>, TxRecord>,
    m: WriteModel,
    inputs: Seq<TxInput>,
    bn: u32,
    txh: Seq<u8>,
)
    ensures
        revert_inputs(txs, m, inputs, bn, txh).by_recipient == m.by_recipient,
        forall|x: IndexItem|
            #[trigger] revert_inputs(txs, m, inputs, bn, txh).by_issuer.contains(x) <==> m.by_issuer.contains(x)
                && forall|i: int| 0 <= i < inputs.len() ==> x != issuer_item(txs, inputs[i], bn, txh),
    decreases inputs.len(),
{
    if inputs.len() > 0 {
        let prev = inputs.drop_last();
        lemma_revert_inputs_index(txs, m, prev, bn, txh);
        let r = revert_inputs(txs, m, inputs, bn, txh);
        let p = revert_inputs(txs, m, prev, bn, txh);
        assert(inputs.last() == inputs[inputs.len() - 1]);
        assert forall|x: IndexItem| #[trigger] r.by_issuer.contains(x) <==> m.by_issuer.contains(x)
            && forall|i: int| 0 <= i < inputs.len() ==> x != issuer_item(txs, inputs[i], bn, txh) by {
            if r.by_issuer.contains(x) {
                assert forall|i: int| 0 <= i < inputs.len() implies x != issuer_item(txs, inputs[i], bn, txh) by {
                    if i < inputs.len() - 1 {
                        assert(prev[i] == inputs[i]);
                    }
                }
            }
            if m.by_issuer.contains(x) && forall|i: int| 0 <= i < inputs.len() ==> x != issuer_item(txs, inputs[i], bn, txh) {
                assert forall|i: int| 0 <= i < prev.len() implies x != issuer_item(txs, prev[i], bn, txh) by {
                    assert(prev[i] == inputs[i]);
                }
            }
        }
    }
}

/// Whether every input's origin is recorded under a hash other than `txh`.
pub open spec fn origins_apart(txs: Map<Seq<u8>, TxRecord>, inputs: Seq<TxInput>, txh: Seq<u8>) -> bool {
    forall|i: int|
        0 <= i < inputs.len() ==> ((#[trigger] inputs[i]).id matches SourceId::Utxo(u) ==> u.tx_hash@ != txh)
}

/// Recording another transaction changes no input's resolution.
proof fn lemma_revert_inputs_congruent(
    txs: Map<Seq<u8>, TxRecord>,
    rec: TxRecord,
    m: WriteModel,
    inputs: Seq<TxInput>,
    bn: u32,
    txh: Seq<u8>,
)
    requires
        origins_apart(txs, inputs, txh),
    ensures
        revert_inputs(txs.insert(txh, rec), m, inputs, bn, txh) == revert_inputs(txs, m, inputs, bn, txh),
        forall|i: int|
            0 <= i < inputs.len() ==> source_script(txs.insert(txh, rec), #[trigger] inputs[i].id)
                == source_script(txs, inputs[i].id),
    decreases inputs.len(),
{
    let txs2 = txs.insert(txh, rec);
    assert forall|i: int|
        0 <= i < inputs.len() implies source_script(txs2, #[trigger] inputs[i].id) == source_script(txs, inputs[i].id) by {
        if let SourceId::Utxo(u) = inputs[i].id {
            assert(u.tx_hash@ != txh);
            assert(txs2.contains_key(u.tx_hash@) == txs.contains_key(u.tx_hash@));
        }
    }
    if inputs.len() > 0 {
        let prev = inputs.drop_last();
        let last = inputs.last();
        assert(last == inputs[inputs.len() - 1]);
        assert(origins_apart(txs, prev, txh)) by {
            assert forall|i: int| 0 <= i < prev.len() implies ((#[trigger] prev[i]).id matches SourceId::Utxo(u) ==> u.tx_hash@ != txh) by {
                assert(prev[i] == inputs[i]);
            }
        }
        lemma_revert_inputs_congruent(txs, rec, m, prev, bn, txh);
        let p = revert_inputs(txs, m, prev, bn, txh);
        if let SourceId::Utxo(u) = last.id {
            assert(txs2[u.tx_hash@] == txs[u.tx_hash@]);
        }
        assert(revert_input(txs2, p, last, bn, txh) == revert_input(txs, p, last, bn, txh));
    }
}

/// Inverse law: reverting a transaction right after applying it (and
/// flushing its index members) restores every table — records, unspent
/// outputs, balances and both indices. It holds for a transaction that
/// applies, is not yet recorded and whose outputs and index members are new;
/// whose consumed outputs hold what the records say (the input's amount, the
/// origin's script and block); whose amounts are positive and within the
/// funding scripts' balances; where no stored balance is zero; and where no
/// balance plus all the transaction's amounts exceeds `u64::MAX`.
pub proof fn lemma_revert_undoes_apply(
    l: LedgerModel,
    tx: Transaction,
    blockstamp: Blockstamp,
    time: i64,
    tx_hash: Seq<u8>,
)
    requires
        apply_outcome(l, tx) == Ok::<(), LedgerError>(()),
        !l.txs.contains_key(tx_hash),
        forall|k: (Seq<u8>, usize)| #[trigger] l.utxos.contains_key(k) ==> k.0 != tx_hash,
        forall|x: IndexItem| #[trigger] l.by_issuer.contains(x) ==> x.1 != tx_hash,
        forall|x: IndexItem| #[trigger] l.by_recipient.contains(x) ==> x.1 != tx_hash,
        forall|i: int|
            0 <= i < tx.inputs@.len() && (#[trigger] consumed(tx.inputs@[i].id)).is_some()
                ==> l.utxos[consumed(tx.inputs@[i].id)->0] == rebuilt(l.txs, tx.inputs@[i]),
        inputs_positive(tx.inputs@),
        outputs_positive(tx.outputs@),
        no_zero(l.balances),
        forall|s: Seq<char>| #[trigger] debited_on(l.txs, tx.inputs@, s) <= balance_of(l.balances, s),
        forall|s: Seq<char>|
            #[trigger] balance_of(l.balances, s) + inputs_total(tx.inputs@) + outputs_total(tx.outputs@)
                <= u64::MAX,
        tx.outputs@.len() <= usize::MAX,
    ensures
        ({
            let m = applied(l, tx, blockstamp.number, tx_hash, Set::empty(), Set::empty());
            let l2 = LedgerModel {
                txs: l.txs.insert(
                    tx_hash,
                    TxRecord { tx, written_block: blockstamp, written_time: time },
                ),
                utxos: m.utxos,
                balances: m.balances,
                by_issuer: l.by_issuer.union(m.by_issuer),
                by_recipient: l.by_recipient.union(m.by_recipient),
            };
            &&& revert_outcome(l2, tx_hash) == Ok::<Option<Transaction>, LedgerError>(Some(tx))
            &&& reverted(l2, blockstamp.number, tx_hash) == l
        }),
{
    let bn = blockstamp.number;
    let inputs = tx.inputs@;
    let outputs = tx.outputs@;
    let txs = l.txs;
    let rec = TxRecord { tx, written_block: blockstamp, written_time: time };
    let txs2 = txs.insert(tx_hash, rec);
    let start = WriteModel {
        utxos: l.utxos,
        balances: l.balances,
        issuers: Set::empty(),
        by_issuer: Set::empty(),
        by_recipient: Set::empty(),
    };
    let a1 = apply_inputs(txs, start, inputs, bn, tx_hash);
    let m = apply_outputs(a1, outputs, bn, tx_hash);
    assert(m == applied(l, tx, bn, tx_hash, Set::empty(), Set::empty()));
    let l2 = LedgerModel {
        txs: txs2,
        utxos: m.utxos,
        balances: m.balances,
        by_issuer: l.by_issuer.union(m.by_issuer),
        by_recipient: l.by_recipient.union(m.by_recipient),
    };
    assert(sources_known(txs, inputs) && spendable(l.utxos, inputs));
    assert(txs2[tx_hash].tx == tx);

    // Every origin is recorded, so none is the new record.
    assert(origins_apart(txs, inputs, tx_hash)) by {
        assert forall|i: int| 0 <= i < inputs.len() implies ((#[trigger] inputs[i]).id matches SourceId::Utxo(u) ==> u.tx_hash@ != tx_hash) by {
            assert(source_script(txs, inputs[i].id).is_some());
        }
    }
    let start2 = WriteModel {
        utxos: m.utxos,
        balances: m.balances,
        issuers: Set::empty(),
        by_issuer: l2.by_issuer,
        by_recipient: l2.by_recipient,
    };
    let r1 = revert_outputs(start2, outputs, bn, tx_hash);
    lemma_revert_inputs_congruent(txs, rec, r1, inputs, bn, tx_hash);
    let r2 = revert_inputs(txs, r1, inputs, bn, tx_hash);
    assert(reverted(l2, bn, tx_hash).utxos == r2.utxos);

    // Distinct consumption, from spendability.
    assert(distinct_consumption(inputs)) by {
        assert forall|i: int, j: int|
            0 <= i < inputs.len() && 0 <= j < inputs.len() && i != j && (#[trigger] consumed(inputs[i].id)).is_some()
                implies consumed(inputs[i].id) != #[trigger] consumed(inputs[j].id) by {
            if j < i {
            } else if consumed(inputs[j].id) == consumed(inputs[i].id) {
                assert(consumed(inputs[j].id).is_some());
            }
        }
    }

    // Unspent outputs.
    lemma_apply_inputs_utxos(txs, start, inputs, bn, tx_hash);
    lemma_apply_outputs_utxos(a1, outputs, bn, tx_hash);
    lemma_revert_outputs_utxos(start2, outputs, bn, tx_hash);
    lemma_revert_inputs_utxos(txs, r1, inputs, bn, tx_hash);
    assert forall|k: (Seq<u8>, usize)| r2.utxos.contains_key(k) == l.utxos.contains_key(k) && (l.utxos.contains_key(k) ==> r2.utxos[k] == l.utxos[k]) by {
        if consumes(inputs, k) {
            let i = choose|i: int| 0 <= i < inputs.len() && #[trigger] consumed(inputs[i].id) == Some(k);
            assert(consumed(inputs[i].id).is_some());
            assert(l.utxos.contains_key(k));
        } else if written_by(k, tx_hash, outputs.len()) {
            assert(!r1.utxos.contains_key(k));
            if l.utxos.contains_key(k) {
                assert(k.0 != tx_hash);
            }
        } else {
            assert(r1.utxos.contains_key(k) == start2.utxos.contains_key(k));
            assert(m.utxos.contains_key(k) == a1.utxos.contains_key(k));
            assert(a1.utxos.contains_key(k) == l.utxos.contains_key(k));
        }
    }
    assert(r2.utxos =~= l.utxos);

    // Balances.
    lemma_apply_inputs_balances(txs, start, inputs, bn, tx_hash);
    assert forall|s: Seq<char>| #[trigger] balance_of(a1.balances, s) + credited_on(outputs, s) <= u64::MAX by {
        lemma_credited_within_total(outputs, s);
        assert(balance_of(a1.balances, s) <= balance_of(l.balances, s));
    }
    lemma_apply_outputs_balances(a1, outputs, bn, tx_hash);
    assert forall|s: Seq<char>| #[trigger] credited_on(outputs, s) <= balance_of(start2.balances, s) by {
        assert(balance_of(m.balances, s) == balance_of(a1.balances, s) + credited_on(outputs, s));
    }
    lemma_revert_outputs_balances(start2, outputs, bn, tx_hash);
    assert forall|s: Seq<char>| #[trigger] balance_of(r1.balances, s) + debited_on(txs, inputs, s) <= u64::MAX by {
        assert(balance_of(m.balances, s) == balance_of(a1.balances, s) + credited_on(outputs, s));
        assert(balance_of(a1.balances, s) == balance_of(l.balances, s) - debited_on(txs, inputs, s));
    }
    lemma_revert_inputs_balances(txs, r1, inputs, bn, tx_hash);
    assert forall|s: Seq<char>| #[trigger] balance_of(r2.balances, s) == balance_of(l.balances, s) by {
        assert(balance_of(m.balances, s) == balance_of(a1.balances, s) + credited_on(outputs, s));
        assert(balance_of(a1.balances, s) == balance_of(l.balances, s) - debited_on(txs, inputs, s));
        assert(balance_of(r1.balances, s) == balance_of(m.balances, s) - credited_on(outputs, s));
    }
    lemma_balances_ext(r2.balances, l.balances);

    // Indices.
    lemma_apply_inputs_index(txs, start, inputs, bn, tx_hash);
    lemma_apply_outputs_index(a1, outputs, bn, tx_hash);
    lemma_revert_outputs_index(start2, outputs, bn, tx_hash);
    lemma_revert_inputs_index(txs, r1, inputs, bn, tx_hash);
    assert forall|x: IndexItem| r2.by_issuer.contains(x) == l.by_issuer.contains(x) by {
        if l.by_issuer.contains(x) {
            assert(x.1 != tx_hash);
            assert forall|i: int| 0 <= i < inputs.len() implies x != issuer_item(txs, inputs[i], bn, tx_hash) by {}
        }
        if r2.by_issuer.contains(x) && !l.by_issuer.contains(x) {
            assert(m.by_issuer.contains(x));
            assert(a1.by_issuer.contains(x));
        }
    }
    assert(r2.by_issuer =~= l.by_issuer);
    assert forall|x: IndexItem| r2.by_recipient.contains(x) == l.by_recipient.contains(x) by {
        if l.by_recipient.contains(x) {
            assert(x.1 != tx_hash);
            assert forall|j: int| 0 <= j < outputs.len() implies x != recipient_item(outputs[j], bn, tx_hash) by {}
        }
        if r2.by_recipient.contains(x) && !l.by_recipient.contains(x) {
            assert(m.by_recipient.contains(x));
            assert(!a1.by_recipient.contains(x));
        }
    }
    assert(r2.by_recipient =~= l.by_recipient);
    assert(txs2.remove(tx_hash) =~= txs);

    // The revert succeeds.
    assert(sources_known(txs2, inputs));
    assert forall|j: int| 0 <= j < outputs.len() implies #[trigger] m.utxos.contains_key((tx_hash, j as usize)) by {}
    assert forall|i: int| 0 <= i < inputs.len() implies balance_of(m.balances, #[trigger] source_script(txs2, inputs[i].id)->0)
        + inputs_total(inputs) <= u64::MAX by {
        let s = source_script(txs2, inputs[i].id)->0;
        lemma_credited_within_total(outputs, s);
        assert(balance_of(m.balances, s) == balance_of(a1.balances, s) + credited_on(outputs, s));
        assert(balance_of(a1.balances, s) <= balance_of(l.balances, s));
    }
}

/// Adds the amount of unspent output `k` to `acc` where it belongs to `s`.
pub open spec fn weigh(utxos: Map<(Seq<u8>, usize), Utxo>, s: Seq<char>) -> spec_fn(nat, (Seq<u8>, usize)) -> nat {
    |acc: nat, k: (Seq<u8>, usize)| acc + if utxos[k].script@ == s {
        utxos[k].amount as nat
    } else {
        0nat
    }
}

/// Total amount of the unspent outputs of script `s`.
pub open spec fn held_by(utxos: Map<(Seq<u8>, usize), Utxo>, s: Seq<char>) -> nat {
    utxos.dom().fold(0nat, weigh(utxos, s))
}

/// Every script's balance is the total of its unspent outputs.
pub open spec fn conserved(utxos: Map<(Seq<u8>, usize), Utxo>, balances: Map<Seq<char>, u64>) -> bool {
    &&& utxos.dom().finite()
    &&& forall|s: Seq<char>| #[trigger] balance_of(balances, s) == held_by(utxos, s)
}

proof fn lemma_weigh_commutative(utxos: Map<(Seq<u8>, usize), Utxo>, s: Seq<char>)
    ensures
        is_fun_commutative(weigh(utxos, s)),
{
    let f = weigh(utxos, s);
    assert forall|a1: (Seq<u8>, usize), a2: (Seq<u8>, usize), b: nat| #[trigger] f(f(b, a1), a2) == f(f(b, a2), a1) by {}
}

/// Folding over a set with two weightings that agree on it gives one total.
proof fn lemma_fold_agree(
    keys: Set<(Seq<u8>, usize)>,
    u1: Map<(Seq<u8>, usize), Utxo>,
    u2: Map<(Seq<u8>, usize), Utxo>,
    s: Seq<char>,
)
    requires
        keys.finite(),
        forall|k: (Seq<u8>, usize)| #[trigger] keys.contains(k) ==> u1[k] == u2[k],
    ensures
        keys.fold(0nat, weigh(u1, s)) == keys.fold(0nat, weigh(u2, s)),
    decreases keys.len(),
{
    lemma_weigh_commutative(u1, s);
    lemma_weigh_commutative(u2, s);
    if keys.len() == 0 {
        assert(keys =~= Set::empty());
        lemma_fold_empty(0nat, weigh(u1, s));
        lemma_fold_empty(0nat, weigh(u2, s));
    } else {
        let a = keys.choose();
        let rest = keys.remove(a);
        lemma_fold_agree(rest, u1, u2, s);
        assert(rest.insert(a) =~= keys);
        lemma_fold_insert(rest, 0nat, weigh(u1, s), a);
        lemma_fold_insert(rest, 0nat, weigh(u2, s), a);
    }
}

proof fn lemma_held_remove(utxos: Map<(Seq<u8>, usize), Utxo>, k: (Seq<u8>, usize), s: Seq<char>)
    requires
        utxos.dom().finite(),
        utxos.contains_key(k),
    ensures
        held_by(utxos, s) == held_by(utxos.remove(k), s) + if utxos[k].script@ == s {
            utxos[k].amount as nat
        } else {
            0nat
        },
{
    let rest = utxos.dom().remove(k);
    let u2 = utxos.remove(k);
    assert(u2.dom() =~= rest);
    lemma_fold_agree(rest, u2, utxos, s);
    lemma_weigh_commutative(utxos, s);
    assert(rest.insert(k) =~= utxos.dom());
    lemma_fold_insert(rest, 0nat, weigh(utxos, s), k);
}

proof fn lemma_held_insert(utxos: Map<(Seq<u8>, usize), Utxo>, k: (Seq<u8>, usize), v: Utxo, s: Seq<char>)
    requires
        utxos.dom().finite(),
        !utxos.contains_key(k),
    ensures
        held_by(utxos.insert(k, v), s) == held_by(utxos, s) + if v.script@ == s {
            v.amount as nat
        } else {
            0nat
        },
{
    let u2 = utxos.insert(k, v);
    lemma_held_remove(u2, k, s);
    assert(u2.remove(k) =~= utxos);
}

proof fn lemma_inputs_conserve(
    txs: Map<Seq<u8>, TxRecord>,
    m: WriteModel,
    inputs: Seq<TxInput>,
    bn: u32,
    txh: Seq<u8>,
)
    requires
        conserved(m.utxos, m.balances),
        distinct_consumption(inputs),
        forall|i: int|
            0 <= i < inputs.len() ==> {
                &&& (#[trigger] consumed(inputs[i].id)).is_some()
                &&& m.utxos.contains_key(consumed(inputs[i].id)->0)
                &&& m.utxos[consumed(inputs[i].id)->0].script@ == source_script(txs, inputs[i].id)->0
                &&& m.utxos[consumed(inputs[i].id)->0].amount == inputs[i].amount
            },
    ensures
        conserved(
            apply_inputs(txs, m, inputs, bn, txh).utxos,
            apply_inputs(txs, m, inputs, bn, txh).balances,
        ),
        forall|s: Seq<char>|
            #[trigger] balance_of(apply_inputs(txs, m, inputs, bn, txh).balances, s) <= balance_of(m.balances, s),
    decreases inputs.len(),
{
    if inputs.len() > 0 {
        let prev = inputs.drop_last();
        let last = inputs.last();
        let n = inputs.len() - 1;
        assert(last == inputs[n]);
        assert(distinct_consumption(prev)) by {
            assert forall|i: int, j: int|
                0 <= i < prev.len() && 0 <= j < prev.len() && i != j && (#[trigger] consumed(prev[i].id)).is_some()
                    implies consumed(prev[i].id) != #[trigger] consumed(prev[j].id) by {
                assert(prev[i] == inputs[i] && prev[j] == inputs[j]);
            }
        }
        assert forall|i: int| 0 <= i < prev.len() implies {
            &&& (#[trigger] consumed(prev[i].id)).is_some()
            &&& m.utxos.contains_key(consumed(prev[i].id)->0)
            &&& m.utxos[consumed(prev[i].id)->0].script@ == source_script(txs, prev[i].id)->0
            &&& m.utxos[consumed(prev[i].id)->0].amount == prev[i].amount
        } by {
            assert(prev[i] == inputs[i]);
        }
        lemma_inputs_conserve(txs, m, prev, bn, txh);
        lemma_apply_inputs_utxos(txs, m, prev, bn, txh);
        let p = apply_inputs(txs, m, prev, bn, txh);
        let r = apply_inputs(txs, m, inputs, bn, txh);
        let k = consumed(last.id)->0;
        assert(consumed(inputs[n].id).is_some());
        assert(!consumes(prev, k)) by {
            if consumes(prev, k) {
                let i = choose|i: int| 0 <= i < prev.len() && #[trigger] consumed(prev[i].id) == Some(k);
                assert(prev[i] == inputs[i]);
                assert(consumed(inputs[n].id) != consumed(inputs[i].id));
            }
        }
        assert(m.utxos.contains_key(k));
        assert(p.utxos.contains_key(k) == m.utxos.contains_key(k));
        assert(p.utxos[k] == m.utxos[k]);
        let s0 = source_script(txs, last.id)->0;
        assert(r.utxos == p.utxos.remove(k));
        assert(r.balances == debit(p.balances, s0, last.amount));
        assert(r.utxos.dom() =~= p.utxos.dom().remove(k));
        assert forall|s: Seq<char>| #[trigger] balance_of(r.balances, s) == held_by(r.utxos, s) by {
            lemma_held_remove(p.utxos, k, s);
            assert(balance_of(p.balances, s) == held_by(p.utxos, s));
        }
        assert forall|s: Seq<char>| #[trigger] balance_of(r.balances, s) <= balance_of(m.balances, s) by {
            assert(balance_of(p.balances, s) <= balance_of(m.balances, s));
        }
    }
}

proof fn lemma_outputs_conserve(m: WriteModel, outputs: Seq<TxOutput>, bn: u32, txh: Seq<u8>)
    requires
        conserved(m.utxos, m.balances),
        forall|k: (Seq<u8>, usize)| #[trigger] m.utxos.contains_key(k) ==> k.0 != txh,
        output_credits_fit(m.balances, outputs),
        outputs.len() <= usize::MAX,
    ensures
        conserved(apply_outputs(m, outputs, bn, txh).utxos, apply_outputs(m, outputs, bn, txh).balances),
        forall|s: Seq<char>|
            #[trigger] balance_of(apply_outputs(m, outputs, bn, txh).balances, s) == balance_of(m.balances, s)
                + credited_on(outputs, s),
    decreases outputs.len(),
{
    if outputs.len() > 0 {
        let prev = outputs.drop_last();
        let last = outputs.last();
        let n = outputs.len() - 1;
        assert(last == outputs[n]);
        assert(outputs_total(prev) <= outputs_total(outputs));
        assert(output_credits_fit(m.balances, prev)) by {
            assert forall|j: int| 0 <= j < prev.len() implies balance_of(m.balances, #[trigger] prev[j].script@)
                + outputs_total(prev) <= u64::MAX by {
                assert(prev[j] == outputs[j]);
            }
        }
        lemma_outputs_conserve(m, prev, bn, txh);
        lemma_apply_outputs_utxos(m, prev, bn, txh);
        let p = apply_outputs(m, prev, bn, txh);
        let r = apply_outputs(m, outputs, bn, txh);
        let k = (txh, n as usize);
        assert(!written_by(k, txh, prev.len()));
        assert(!p.utxos.contains_key(k));
        let v = Utxo { amount: last.amount, script: last.script, written_block: bn };
        assert(r.utxos == p.utxos.insert(k, v));
        let s0 = last.script@;
        lemma_credited_within_total(outputs, s0);
        assert(credited_on(outputs, s0) == credited_on(prev, s0) + last.amount);
        assert(balance_of(m.balances, s0) + outputs_total(outputs) <= u64::MAX);
        assert(r.balances == credit(p.balances, s0, last.amount));
        assert(r.utxos.dom() =~= p.utxos.dom().insert(k));
        assert forall|s: Seq<char>| #[trigger] balance_of(r.balances, s) == held_by(r.utxos, s) by {
            lemma_held_insert(p.utxos, k, v, s);
            assert(balance_of(p.balances, s) == held_by(p.utxos, s));
        }
        assert forall|s: Seq<char>|
            #[trigger] balance_of(r.balances, s) == balance_of(m.balances, s) + credited_on(outputs, s) by {
            if s != s0 {
                assert(balance_of(r.balances, s) == balance_of(p.balances, s));
            }
        }
    }
}

/// Balance conservation: where every script's stored balance is the total of
/// its unspent outputs, this still holds after applying a transaction whose
/// inputs all consume unspent outputs (each holding the input's amount and
/// its origin's script) and whose outputs are new. Dividend inputs are left
/// out: a dividend is credited to a balance with no unspent output behind it.
pub proof fn lemma_apply_conserves_balances(
    l: LedgerModel,
    tx: Transaction,
    block_number: u32,
    tx_hash: Seq<u8>,
    by_issuer: Set<IndexItem>,
    by_recipient: Set<IndexItem>,
)
    requires
        apply_outcome(l, tx) == Ok::<(), LedgerError>(()),
        conserved(l.utxos, l.balances),
        forall|k: (Seq<u8>, usize)| #[trigger] l.utxos.contains_key(k) ==> k.0 != tx_hash,
        forall|i: int|
            0 <= i < tx.inputs@.len() ==> {
                &&& (#[trigger] consumed(tx.inputs@[i].id)).is_some()
                &&& l.utxos[consumed(tx.inputs@[i].id)->0] == rebuilt(l.txs, tx.inputs@[i])
            },
        tx.outputs@.len() <= usize::MAX,
    ensures
        conserved(
            applied(l, tx, block_number, tx_hash, by_issuer, by_recipient).utxos,
            applied(l, tx, block_number, tx_hash, by_issuer, by_recipient).balances,
        ),
{
    let inputs = tx.inputs@;
    let txs = l.txs;
    let start = WriteModel {
        utxos: l.utxos,
        balances: l.balances,
        issuers: Set::empty(),
        by_issuer,
        by_recipient,
    };
    assert(sources_known(txs, inputs) && spendable(l.utxos, inputs));
    assert(distinct_consumption(inputs)) by {
        assert forall|i: int, j: int|
            0 <= i < inputs.len() && 0 <= j < inputs.len() && i != j && (#[trigger] consumed(inputs[i].id)).is_some()
                implies consumed(inputs[i].id) != #[trigger] consumed(inputs[j].id) by {
            if j < i {
            } else if consumed(inputs[j].id) == consumed(inputs[i].id) {
                assert(consumed(inputs[j].id).is_some());
            }
        }
    }
    assert forall|i: int| 0 <= i < inputs.len() implies {
        &&& (#[trigger] consumed(inputs[i].id)).is_some()
        &&& l.utxos.contains_key(consumed(inputs[i].id)->0)
        &&& l.utxos[consumed(inputs[i].id)->0].script@ == source_script(txs, inputs[i].id)->0
        &&& l.utxos[consumed(inputs[i].id)->0].amount == inputs[i].amount
    } by {
        assert(consumed(inputs[i].id).is_some());
        assert(source_script(txs, inputs[i].id).is_some());
    }
    lemma_inputs_conserve(txs, start, inputs, block_number, tx_hash);
    lemma_apply_inputs_utxos(txs, start, inputs, block_number, tx_hash);
    let a1 = apply_inputs(txs, start, inputs, block_number, tx_hash);
    assert forall|k: (Seq<u8>, usize)| #[trigger] a1.utxos.contains_key(k) implies k.0 != tx_hash by {
        if consumes(inputs, k) {
            let i = choose|i: int| 0 <= i < inputs.len() && #[trigger] consumed(inputs[i].id) == Some(k);
            assert(consumed(inputs[i].id).is_some());
        }
    }
    assert(output_credits_fit(a1.balances, tx.outputs@)) by {
        assert forall|j: int| 0 <= j < tx.outputs@.len() implies balance_of(a1.balances, #[trigger] tx.outputs@[j].script@)
            + outputs_total(tx.outputs@) <= u64::MAX by {
            assert(balance_of(a1.balances, tx.outputs@[j].script@) <= balance_of(l.balances, tx.outputs@[j].script@));
        }
    }
    lemma_outputs_conserve(a1, tx.outputs@, block_number, tx_hash);
}

} // verus!
