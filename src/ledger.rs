//! The ledger's tables and the two operations that change them together:
//! applying a transaction and reverting it.
use crate::index::{IndexItem, TxsIndex};
use crate::script_hash::{
    get_script_hash, issuer_script, single_sig_script, text_hash_of, ScriptsHash,
};
use crate::table::{Table, TableKey};
use crate::types::{
    Blockstamp, Digest, Script, SourceId, Transaction, TxInput, TxOutput, TxRecord, Utxo, UtxoId,
    WalletHashWithBn,
};
use vstd::prelude::*;

verus! {

/// Why an operation was refused; a refused operation changes no table.
#[derive(Clone, Copy, Debug, PartialEq, Eq)]
pub enum LedgerError {
    /// An input's origin transaction or output, or an unspent output that an
    /// operation must remove, is missing: the stored state is inconsistent.
    CorruptedState,
    /// A balance would exceed `u64::MAX`.
    BalanceOverflow,
}

/// The abstract content of the tables that one operation writes.
pub struct WriteModel {
    pub utxos: Map<(Seq<u8>, usize), Utxo>,
    pub balances: Map<Seq<char>, u64>,
    pub issuers: Set<Seq<u8>>,
    pub by_issuer: Set<IndexItem>,
    pub by_recipient: Set<IndexItem>,
}

/// Balance of a script; an absent entry is zero.
pub open spec fn balance_of(b: Map<Seq<char>, u64>, s: Seq<char>) -> nat {
    if b.contains_key(s) {
        b[s] as nat
    } else {
        0
    }
}

/// Lowers a balance: an absent entry stays absent, and an entry that would
/// not stay positive is removed.
pub open spec fn debit(b: Map<Seq<char>, u64>, s: Seq<char>, amount: u64) -> Map<Seq<char>, u64> {
    if !b.contains_key(s) {
        b
    } else if b[s] > amount {
        b.insert(s, (b[s] - amount) as u64)
    } else {
        b.remove(s)
    }
}

/// Raises a balance, creating the entry where it is absent.
pub open spec fn credit(b: Map<Seq<char>, u64>, s: Seq<char>, amount: u64) -> Map<Seq<char>, u64> {
    b.insert(s, (balance_of(b, s) + amount) as u64)
}

/// Whether the output that `id` names is recorded.
pub open spec fn origin_known(txs: Map<Seq<u8>, TxRecord>, id: UtxoId) -> bool {
    txs.contains_key(id.tx_hash@) && id.output_index < txs[id.tx_hash@].tx.outputs@.len()
}

/// The output that `id` names.
pub open spec fn origin_output(txs: Map<Seq<u8>, TxRecord>, id: UtxoId) -> TxOutput {
    txs[id.tx_hash@].tx.outputs@[id.output_index as int]
}

/// The funding script of a source, where it can be found.
pub open spec fn source_script(txs: Map<Seq<u8>, TxRecord>, id: SourceId) -> Option<Seq<char>> {
    match id {
        SourceId::Utxo(u) => if origin_known(txs, u) {
            Some(origin_output(txs, u).script@)
        } else {
            None
        },
        SourceId::Dividend { issuer, .. } => issuer_script(&issuer),
    }
}

/// The unspent output that a source consumes, if any.
pub open spec fn consumed(id: SourceId) -> Option<(Seq<u8>, usize)> {
    match id {
        SourceId::Utxo(u) => Some(u@),
        SourceId::Dividend { .. } => None,
    }
}

/// Sum of the amounts of outputs.
pub open spec fn outputs_total(outputs: Seq<TxOutput>) -> nat
    decreases outputs.len(),
{
    if outputs.len() == 0 {
        0
    } else {
        outputs_total(outputs.drop_last()) + outputs.last().amount as nat
    }
}

/// Sum of the amounts of inputs.
pub open spec fn inputs_total(inputs: Seq<TxInput>) -> nat
    decreases inputs.len(),
{
    if inputs.len() == 0 {
        0
    } else {
        inputs_total(inputs.drop_last()) + inputs.last().amount as nat
    }
}

/// Every input's funding script can be found.
pub open spec fn sources_known(txs: Map<Seq<u8>, TxRecord>, inputs: Seq<TxInput>) -> bool {
    forall|i: int| 0 <= i < inputs.len() ==> (#[trigger] source_script(txs, inputs[i].id)).is_some()
}

/// Every consumed output is unspent, and none is consumed twice.
pub open spec fn spendable(utxos: Map<(Seq<u8>, usize), Utxo>, inputs: Seq<TxInput>) -> bool {
    forall|i: int|
        0 <= i < inputs.len() && (#[trigger] consumed(inputs[i].id)).is_some() ==> {
            &&& utxos.contains_key(consumed(inputs[i].id)->0)
            &&& forall|j: int| 0 <= j < i ==> consumed(inputs[j].id) != consumed(inputs[i].id)
        }
}

/// Crediting every output's amount to its script cannot overflow.
pub open spec fn output_credits_fit(b: Map<Seq<char>, u64>, outputs: Seq<TxOutput>) -> bool {
    forall|j: int|
        0 <= j < outputs.len() ==> balance_of(b, #[trigger] outputs[j].script@) + outputs_total(
            outputs,
        ) <= u64::MAX
}

/// A source resolved to its funding script.
pub struct ResolvedSource {
    pub script_hash: Digest,
    pub script: Script,
    /// Block in which the consumed output was written (for a dividend, its
    /// block).
    pub written_block: u32,
}

pub proof fn lemma_outputs_total_prefix(outputs: Seq<TxOutput>, j: int)
    requires
        0 <= j <= outputs.len(),
    ensures
        outputs_total(outputs.take(j)) <= outputs_total(outputs),
    decreases outputs.len() - j,
{
    if j < outputs.len() {
        lemma_outputs_total_prefix(outputs, j + 1);
        assert(outputs.take(j + 1).drop_last() =~= outputs.take(j));
    } else {
        assert(outputs.take(j) =~= outputs);
    }
}

pub proof fn lemma_inputs_total_prefix(inputs: Seq<TxInput>, j: int)
    requires
        0 <= j <= inputs.len(),
    ensures
        inputs_total(inputs.take(j)) <= inputs_total(inputs),
    decreases inputs.len() - j,
{
    if j < inputs.len() {
        lemma_inputs_total_prefix(inputs, j + 1);
        assert(inputs.take(j + 1).drop_last() =~= inputs.take(j));
    } else {
        assert(inputs.take(j) =~= inputs);
    }
}

/// Lowers the balance of `account_script` by `decrease_amount`; an absent
/// balance stays absent and one that would not stay positive is removed.
pub fn decrease_account_balance(
    account_script: Script,
    balances: &mut Table<Script, u64>,
    decrease_amount: u64,
)
    requires
        old(balances).wf(),
    ensures
        final(balances).wf(),
        final(balances)@ == debit(old(balances)@, account_script@, decrease_amount),
{
    let current: Option<u64> = match balances.get(&account_script) {
        Some(b) => Some(*b),
        None => None,
    };
    if let Some(balance) = current {
        if balance > decrease_amount {
            balances.upsert(account_script, balance - decrease_amount);
        } else {
            let _ = balances.remove(&account_script);
        }
    }
}

/// Raises the balance of `account_script` by `amount`.
pub fn increase_account_balance(
    account_script: Script,
    balances: &mut Table<Script, u64>,
    amount: u64,
)
    requires
        old(balances).wf(),
        balance_of(old(balances)@, account_script@) + amount <= u64::MAX,
    ensures
        final(balances).wf(),
        final(balances)@ == credit(old(balances)@, account_script@, amount),
{
    let current: u64 = match balances.get(&account_script) {
        Some(b) => *b,
        None => 0,
    };
    balances.upsert(account_script, current + amount);
}

/// One input's effect on the tables, its funding script taken from `txs`.
pub open spec fn apply_input(
    txs: Map<Seq<u8>, TxRecord>,
    m: WriteModel,
    input: TxInput,
    block_number: u32,
    tx_hash: Seq<u8>,
) -> WriteModel {
    let s = source_script(txs, input.id)->0;
    let h = text_hash_of(s);
    WriteModel {
        utxos: match consumed(input.id) {
            Some(u) => m.utxos.remove(u),
            None => m.utxos,
        },
        balances: debit(m.balances, s, input.amount),
        issuers: m.issuers.insert(h),
        by_issuer: m.by_issuer.insert(((h, block_number), tx_hash)),
        by_recipient: m.by_recipient,
    }
}

/// The inputs' effects, in document order.
pub open spec fn apply_inputs(
    txs: Map<Seq<u8>, TxRecord>,
    m: WriteModel,
    inputs: Seq<TxInput>,
    block_number: u32,
    tx_hash: Seq<u8>,
) -> WriteModel
    decreases inputs.len(),
{
    if inputs.len() == 0 {
        m
    } else {
        apply_input(
            txs,
            apply_inputs(txs, m, inputs.drop_last(), block_number, tx_hash),
            inputs.last(),
            block_number,
            tx_hash,
        )
    }
}

/// The effect of output `index`: a new unspent output, a credit, and a
/// recipient entry unless the script also funded the transaction.
pub open spec fn apply_output(
    m: WriteModel,
    output: TxOutput,
    index: int,
    block_number: u32,
    tx_hash: Seq<u8>,
) -> WriteModel {
    let h = text_hash_of(output.script@);
    WriteModel {
        utxos: m.utxos.insert(
            (tx_hash, index as usize),
            Utxo { amount: output.amount, script: output.script, written_block: block_number },
        ),
        balances: credit(m.balances, output.script@, output.amount),
        issuers: m.issuers,
        by_issuer: m.by_issuer,
        by_recipient: if m.issuers.contains(h) {
            m.by_recipient
        } else {
            m.by_recipient.insert(((h, block_number), tx_hash))
        },
    }
}

/// The outputs' effects, in document order.
pub open spec fn apply_outputs(
    m: WriteModel,
    outputs: Seq<TxOutput>,
    block_number: u32,
    tx_hash: Seq<u8>,
) -> WriteModel
    decreases outputs.len(),
{
    if outputs.len() == 0 {
        m
    } else {
        apply_output(
            apply_outputs(m, outputs.drop_last(), block_number, tx_hash),
            outputs.last(),
            outputs.len() - 1,
            block_number,
            tx_hash,
        )
    }
}

/// Undoing output `index`: its unspent output goes, its recipient entry goes,
/// and its amount is debited.
pub open spec fn revert_output(
    m: WriteModel,
    output: TxOutput,
    index: int,
    block_number: u32,
    tx_hash: Seq<u8>,
) -> WriteModel {
    let h = text_hash_of(output.script@);
    WriteModel {
        utxos: m.utxos.remove((tx_hash, index as usize)),
        balances: debit(m.balances, output.script@, output.amount),
        issuers: m.issuers,
        by_issuer: m.by_issuer,
        by_recipient: m.by_recipient.remove(((h, block_number), tx_hash)),
    }
}

/// Undoing the outputs, in document order.
pub open spec fn revert_outputs(
    m: WriteModel,
    outputs: Seq<TxOutput>,
    block_number: u32,
    tx_hash: Seq<u8>,
) -> WriteModel
    decreases outputs.len(),
{
    if outputs.len() == 0 {
        m
    } else {
        revert_output(
            revert_outputs(m, outputs.drop_last(), block_number, tx_hash),
            outputs.last(),
            outputs.len() - 1,
            block_number,
            tx_hash,
        )
    }
}

/// Undoing one input: the output it consumed comes back as it was written,
/// its issuer entry goes, and its amount is credited back.
pub open spec fn revert_input(
    txs: Map<Seq<u8>, TxRecord>,
    m: WriteModel,
    input: TxInput,
    block_number: u32,
    tx_hash: Seq<u8>,
) -> WriteModel {
    let s = source_script(txs, input.id)->0;
    let h = text_hash_of(s);
    WriteModel {
        utxos: match input.id {
            SourceId::Utxo(u) => m.utxos.insert(
                u@,
                Utxo {
                    amount: input.amount,
                    script: origin_output(txs, u).script,
                    written_block: txs[u.tx_hash@].written_block.number,
                },
            ),
            SourceId::Dividend { .. } => m.utxos,
        },
        balances: credit(m.balances, s, input.amount),
        issuers: m.issuers,
        by_issuer: m.by_issuer.remove(((h, block_number), tx_hash)),
        by_recipient: m.by_recipient,
    }
}

/// Undoing the inputs, in document order.
pub open spec fn revert_inputs(
    txs: Map<Seq<u8>, TxRecord>,
    m: WriteModel,
    inputs: Seq<TxInput>,
    block_number: u32,
    tx_hash: Seq<u8>,
) -> WriteModel
    decreases inputs.len(),
{
    if inputs.len() == 0 {
        m
    } else {
        revert_input(
            txs,
            revert_inputs(txs, m, inputs.drop_last(), block_number, tx_hash),
            inputs.last(),
            block_number,
            tx_hash,
        )
    }
}

/// Every output of the transaction `tx_hash` is still unspent.
pub open spec fn outputs_unspent(
    utxos: Map<(Seq<u8>, usize), Utxo>,
    tx_hash: Seq<u8>,
    n: nat,
) -> bool {
    forall|j: int| 0 <= j < n ==> #[trigger] utxos.contains_key((tx_hash, j as usize))
}

/// Crediting every input's amount back to its funding script cannot overflow.
pub open spec fn input_credits_fit(
    txs: Map<Seq<u8>, TxRecord>,
    b: Map<Seq<char>, u64>,
    inputs: Seq<TxInput>,
) -> bool {
    forall|i: int|
        0 <= i < inputs.len() ==> balance_of(b, #[trigger] source_script(txs, inputs[i].id)->0)
            + inputs_total(inputs) <= u64::MAX
}

/// What reverting `tx_hash` returns.
pub open spec fn revert_outcome(l: LedgerModel, tx_hash: Seq<u8>) -> Result<
    Option<Transaction>,
    LedgerError,
> {
    if !l.txs.contains_key(tx_hash) {
        Ok(None)
    } else {
        let tx = l.txs[tx_hash].tx;
        if !outputs_unspent(l.utxos, tx_hash, tx.outputs@.len()) || !sources_known(
            l.txs,
            tx.inputs@,
        ) {
            Err(LedgerError::CorruptedState)
        } else if !input_credits_fit(l.txs, l.balances, tx.inputs@) {
            Err(LedgerError::BalanceOverflow)
        } else {
            Ok(Some(tx))
        }
    }
}

/// The tables after reverting the recorded transaction `tx_hash`, whose
/// index entries were made at `block_number`.
pub open spec fn reverted(l: LedgerModel, block_number: u32, tx_hash: Seq<u8>) -> LedgerModel {
    let tx = l.txs[tx_hash].tx;
    let start = WriteModel {
        utxos: l.utxos,
        balances: l.balances,
        issuers: Set::empty(),
        by_issuer: l.by_issuer,
        by_recipient: l.by_recipient,
    };
    let m = revert_inputs(
        l.txs,
        revert_outputs(start, tx.outputs@, block_number, tx_hash),
        tx.inputs@,
        block_number,
        tx_hash,
    );
    LedgerModel {
        txs: l.txs.remove(tx_hash),
        utxos: m.utxos,
        balances: m.balances,
        by_issuer: m.by_issuer,
        by_recipient: m.by_recipient,
    }
}

/// The abstract content of the ledger's tables.
pub struct LedgerModel {
    pub txs: Map<Seq<u8>, TxRecord>,
    pub utxos: Map<(Seq<u8>, usize), Utxo>,
    pub balances: Map<Seq<char>, u64>,
    pub by_issuer: Set<IndexItem>,
    pub by_recipient: Set<IndexItem>,
}

/// The persisted tables: transaction records, unspent outputs, balances and
/// the issuer / recipient indices.
pub struct Ledger {
    pub(crate) txs: Table<Digest, TxRecord>,
    pub(crate) utxos: Table<UtxoId, Utxo>,
    pub(crate) balances: Table<Script, u64>,
    pub(crate) txs_by_issuer: TxsIndex,
    pub(crate) txs_by_recipient: TxsIndex,
}

impl View for Ledger {
    type V = LedgerModel;

    closed spec fn view(&self) -> LedgerModel {
        LedgerModel {
            txs: self.txs@,
            utxos: self.utxos@,
            balances: self.balances@,
            by_issuer: self.txs_by_issuer@,
            by_recipient: self.txs_by_recipient@,
        }
    }
}

/// Whether applying `tx` to `l` succeeds, and with what error if not.
pub open spec fn apply_outcome(l: LedgerModel, tx: Transaction) -> Result<(), LedgerError> {
    if !sources_known(l.txs, tx.inputs@) || !spendable(l.utxos, tx.inputs@) {
        Err(LedgerError::CorruptedState)
    } else if !output_credits_fit(l.balances, tx.outputs@) {
        Err(LedgerError::BalanceOverflow)
    } else {
        Ok(())
    }
}

/// The tables after applying `tx`, accumulators starting at `by_issuer` and
/// `by_recipient`.
pub open spec fn applied(
    l: LedgerModel,
    tx: Transaction,
    block_number: u32,
    tx_hash: Seq<u8>,
    by_issuer: Set<IndexItem>,
    by_recipient: Set<IndexItem>,
) -> WriteModel {
    apply_outputs(
        apply_inputs(
            l.txs,
            WriteModel {
                utxos: l.utxos,
                balances: l.balances,
                issuers: Set::empty(),
                by_issuer,
                by_recipient,
            },
            tx.inputs@,
            block_number,
            tx_hash,
        ),
        tx.outputs@,
        block_number,
        tx_hash,
    )
}

impl Ledger {
    pub closed spec fn wf(&self) -> bool {
        &&& self.txs.wf()
        &&& self.utxos.wf()
        &&& self.balances.wf()
        &&& self.txs_by_issuer.wf()
        &&& self.txs_by_recipient.wf()
    }

    /// An empty ledger.
    pub fn new() -> (r: Ledger)
        ensures
            r.wf(),
            r@.txs == Map::<Seq<u8>, TxRecord>::empty(),
            r@.utxos == Map::<(Seq<u8>, usize), Utxo>::empty(),
            r@.balances == Map::<Seq<char>, u64>::empty(),
            r@.by_issuer == Set::<IndexItem>::empty(),
            r@.by_recipient == Set::<IndexItem>::empty(),
    {
        Ledger {
            txs: Table::new(),
            utxos: Table::new(),
            balances: Table::new(),
            txs_by_issuer: TxsIndex::new(),
            txs_by_recipient: TxsIndex::new(),
        }
    }

    /// Resolves the funding script of an input and its hash: from the output
    /// it consumes, or from the dividend's issuer.
    pub fn resolve_input_source(&self, input: &TxInput, scripts_hash: &mut ScriptsHash) -> (r:
        Result<ResolvedSource, LedgerError>)
        requires
            self.wf(),
            old(scripts_hash).wf(),
        ensures
            final(scripts_hash).wf(),
            r is Ok <==> source_script(self@.txs, input.id).is_some(),
            r is Err ==> r == Err::<ResolvedSource, LedgerError>(LedgerError::CorruptedState),
            r matches Ok(rs) ==> {
                &&& rs.script@ == source_script(self@.txs, input.id)->0
                &&& rs.script_hash@ == text_hash_of(rs.script@)
                &&& (input.id matches SourceId::Utxo(u) ==> rs.script == origin_output(
                    self@.txs,
                    u,
                ).script && rs.written_block == self@.txs[u.tx_hash@].written_block.number)
            },
    {
        match &input.id {
            SourceId::Utxo(u) => {
                match self.txs.get(&u.tx_hash) {
                    Some(record) => {
                        if u.output_index < record.tx.outputs.len() {
                            let script = record.tx.outputs[u.output_index].script.duplicate();
                            let script_hash = get_script_hash(&script, scripts_hash);
                            Ok(
                                ResolvedSource {
                                    script_hash,
                                    script,
                                    written_block: record.written_block.number,
                                },
                            )
                        } else {
                            Err(LedgerError::CorruptedState)
                        }
                    },
                    None => Err(LedgerError::CorruptedState),
                }
            },
            SourceId::Dividend { issuer, block_number } => {
                match single_sig_script(issuer) {
                    Some(script) => {
                        let script_hash = get_script_hash(&script, scripts_hash);
                        Ok(ResolvedSource { script_hash, script, written_block: *block_number })
                    },
                    None => Err(LedgerError::CorruptedState),
                }
            },
        }
    }

    /// Resolves every input, in order.
    fn resolve_inputs(&self, inputs: &Vec<TxInput>, scripts_hash: &mut ScriptsHash) -> (r: Result<
        Vec<ResolvedSource>,
        LedgerError,
    >)
        requires
            self.wf(),
            old(scripts_hash).wf(),
        ensures
            final(scripts_hash).wf(),
            r is Ok <==> sources_known(self@.txs, inputs@),
            r is Err ==> r == Err::<Vec<ResolvedSource>, LedgerError>(LedgerError::CorruptedState),
            r matches Ok(v) ==> v@.len() == inputs@.len() && forall|i: int|
                0 <= i < v@.len() ==> {
                    &&& (#[trigger] v@[i]).script@ == source_script(self@.txs, inputs@[i].id)->0
                    &&& v@[i].script_hash@ == text_hash_of(v@[i].script@)
                    &&& (inputs@[i].id matches SourceId::Utxo(u) ==> v@[i].script
                        == origin_output(self@.txs, u).script && v@[i].written_block
                        == self@.txs[u.tx_hash@].written_block.number)
                },
    {
        let mut v: Vec<ResolvedSource> = Vec::new();
        let mut i: usize = 0;
        while i < inputs.len()
            invariant
                self.wf(),
                scripts_hash.wf(),
                i <= inputs@.len(),
                v@.len() == i,
                forall|k: int| 0 <= k < i ==> (#[trigger] source_script(self@.txs, inputs@[k].id)).is_some(),
                forall|k: int|
                    0 <= k < i ==> {
                        &&& (#[trigger] v@[k]).script@ == source_script(self@.txs, inputs@[k].id)->0
                        &&& v@[k].script_hash@ == text_hash_of(v@[k].script@)
                        &&& (inputs@[k].id matches SourceId::Utxo(u) ==> v@[k].script
                            == origin_output(self@.txs, u).script && v@[k].written_block
                            == self@.txs[u.tx_hash@].written_block.number)
                    },
            decreases inputs@.len() - i,
        {
            match self.resolve_input_source(&inputs[i], scripts_hash) {
                Ok(rs) => {
                    v.push(rs);
                },
                Err(e) => {
                    return Err(e);
                },
            }
            i = i + 1;
        }
        Ok(v)
    }

    /// Whether crediting every output cannot overflow a balance.
    fn check_output_credits(&self, outputs: &Vec<TxOutput>) -> (r: bool)
        requires
            self.wf(),
        ensures
            r == output_credits_fit(self@.balances, outputs@),
    {
        let mut total: u64 = 0;
        let mut i: usize = 0;
        while i < outputs.len()
            invariant
                i <= outputs@.len(),
                total == outputs_total(outputs@.take(i as int)),
            decreases outputs@.len() - i,
        {
            assert(outputs@.take(i as int + 1).drop_last() =~= outputs@.take(i as int));
            match total.checked_add(outputs[i].amount) {
                Some(t) => {
                    total = t;
                },
                None => {
                    proof {
                        lemma_outputs_total_prefix(outputs@, i as int + 1);
                        assert(balance_of(self@.balances, outputs@[0].script@) + outputs_total(outputs@) > u64::MAX);
                    }
                    return false;
                },
            }
            i = i + 1;
        }
        assert(outputs@.take(outputs@.len() as int) =~= outputs@);
        let mut j: usize = 0;
        while j < outputs.len()
            invariant
                self.wf(),
                j <= outputs@.len(),
                total == outputs_total(outputs@),
                forall|k: int|
                    0 <= k < j ==> balance_of(self@.balances, #[trigger] outputs@[k].script@)
                        + outputs_total(outputs@) <= u64::MAX,
            decreases outputs@.len() - j,
        {
            let balance: u64 = match self.balances.get(&outputs[j].script) {
                Some(b) => *b,
                None => 0,
            };
            if balance > u64::MAX - total {
                return false;
            }
            j = j + 1;
        }
        true
    }

    /// Applies a validated transaction written at `current_blockstamp`: each
    /// input consumes its unspent output (if any), lowers its funding
    /// script's balance and is recorded in `txs_by_issuer_mem`; each output
    /// becomes an unspent output, raises its script's balance and is recorded
    /// in `txs_by_recipient_mem` unless its script also funded the
    /// transaction; then the transaction is recorded. The accumulators are
    /// flushed into the persisted indices by the caller. Either every table
    /// changes or none does.
    pub fn apply_tx(
        &mut self,
        current_blockstamp: Blockstamp,
        current_time: i64,
        scripts_hash: &mut ScriptsHash,
        tx_hash: Digest,
        tx: Transaction,
        txs_by_issuer_mem: &mut TxsIndex,
        txs_by_recipient_mem: &mut TxsIndex,
    ) -> (r: Result<(), LedgerError>)
        requires
            old(self).wf(),
            old(scripts_hash).wf(),
            old(txs_by_issuer_mem).wf(),
            old(txs_by_recipient_mem).wf(),
        ensures
            final(self).wf(),
            final(scripts_hash).wf(),
            final(txs_by_issuer_mem).wf(),
            final(txs_by_recipient_mem).wf(),
            r == apply_outcome(old(self)@, tx),
            r is Err ==> final(self)@ == old(self)@ && final(txs_by_issuer_mem)@ == old(
                txs_by_issuer_mem,
            )@ && final(txs_by_recipient_mem)@ == old(txs_by_recipient_mem)@,
            r is Ok ==> {
                let m = applied(
                    old(self)@,
                    tx,
                    current_blockstamp.number,
                    tx_hash@,
                    old(txs_by_issuer_mem)@,
                    old(txs_by_recipient_mem)@,
                );
                &&& final(self)@ == LedgerModel {
                    txs: old(self)@.txs.insert(
                        tx_hash@,
                        TxRecord {
                            tx,
                            written_block: current_blockstamp,
                            written_time: current_time,
                        },
                    ),
                    utxos: m.utxos,
                    balances: m.balances,
                    by_issuer: old(self)@.by_issuer,
                    by_recipient: old(self)@.by_recipient,
                }
                &&& final(txs_by_issuer_mem)@ == m.by_issuer
                &&& final(txs_by_recipient_mem)@ == m.by_recipient
            },
    {
        let resolved = match self.resolve_inputs(&tx.inputs, scripts_hash) {
            Ok(v) => v,
            Err(e) => {
                return Err(e);
            },
        };
        if !self.check_spendable(&tx.inputs) {
            return Err(LedgerError::CorruptedState);
        }
        if !self.check_output_credits(&tx.outputs) {
            return Err(LedgerError::BalanceOverflow);
        }
        let bn = current_blockstamp.number;
        let ghost l0 = self@;
        let ghost start = WriteModel {
            utxos: l0.utxos,
            balances: l0.balances,
            issuers: Set::empty(),
            by_issuer: txs_by_issuer_mem@,
            by_recipient: txs_by_recipient_mem@,
        };
        let mut issuers: Table<Digest, ()> = Table::new();
        assert(tx.inputs@.take(0) =~= Seq::<TxInput>::empty());
        assert(issuers@.dom() =~= Set::<Seq<u8>>::empty());
        let mut i: usize = 0;
        while i < tx.inputs.len()
            invariant
                self.wf(),
                scripts_hash.wf(),
                txs_by_issuer_mem.wf(),
                txs_by_recipient_mem.wf(),
                issuers.wf(),
                i <= tx.inputs@.len(),
                self@.txs == l0.txs,
                self@.by_issuer == l0.by_issuer,
                self@.by_recipient == l0.by_recipient,
                spendable(l0.utxos, tx.inputs@),
                resolved@.len() == tx.inputs@.len(),
                forall|k: int|
                    0 <= k < resolved@.len() ==> {
                        &&& (#[trigger] resolved@[k]).script@ == source_script(l0.txs, tx.inputs@[k].id)->0
                        &&& resolved@[k].script_hash@ == text_hash_of(resolved@[k].script@)
                    },
                ({
                    let m = apply_inputs(l0.txs, start, tx.inputs@.take(i as int), bn, tx_hash@);
                    &&& self@.utxos == m.utxos
                    &&& self@.balances == m.balances
                    &&& issuers@.dom() == m.issuers
                    &&& txs_by_issuer_mem@ == m.by_issuer
                    &&& txs_by_recipient_mem@ == m.by_recipient
                }),
                forall|k: int|
                    i <= k < tx.inputs@.len() && (#[trigger] consumed(tx.inputs@[k].id)).is_some()
                        ==> self@.utxos.contains_key(consumed(tx.inputs@[k].id)->0),
                forall|s: Seq<char>|
                    balance_of(self@.balances, s) <= #[trigger] balance_of(l0.balances, s),
            decreases tx.inputs@.len() - i,
        {
            let input = &tx.inputs[i];
            let rs = &resolved[i];
            let ghost before = self@;
            if let SourceId::Utxo(u) = &input.id {
                let _ = self.utxos.remove(u);
            }
            issuers.upsert(rs.script_hash, ());
            txs_by_issuer_mem.insert(
                WalletHashWithBn { script_hash: rs.script_hash, block_number: bn },
                tx_hash,
            );
            decrease_account_balance(rs.script.duplicate(), &mut self.balances, input.amount);
            proof {
                let t = tx.inputs@.take(i as int + 1);
                assert(t.drop_last() =~= tx.inputs@.take(i as int));
                assert(t.last() == tx.inputs@[i as int]);
                assert(issuers@.dom() =~= apply_inputs(l0.txs, start, t, bn, tx_hash@).issuers);
                assert forall|k: int|
                    i + 1 <= k < tx.inputs@.len() && (#[trigger] consumed(tx.inputs@[k].id)).is_some()
                        implies self@.utxos.contains_key(consumed(tx.inputs@[k].id)->0) by {
                    assert(before.utxos.contains_key(consumed(tx.inputs@[k].id)->0));
                    if consumed(tx.inputs@[i as int].id).is_some() {
                        assert(consumed(tx.inputs@[i as int].id) != consumed(tx.inputs@[k].id));
                    }
                }
                assert forall|s: Seq<char>|
                    balance_of(self@.balances, s) <= #[trigger] balance_of(l0.balances, s) by {
                    assert(balance_of(self@.balances, s) <= balance_of(before.balances, s));
                }
            }
            i = i + 1;
        }
        assert(tx.inputs@.take(tx.inputs@.len() as int) =~= tx.inputs@);
        let ghost after_inputs = apply_inputs(l0.txs, start, tx.inputs@, bn, tx_hash@);
        assert(tx.outputs@.take(0) =~= Seq::<TxOutput>::empty());
        let mut j: usize = 0;
        while j < tx.outputs.len()
            invariant
                self.wf(),
                scripts_hash.wf(),
                txs_by_issuer_mem.wf(),
                txs_by_recipient_mem.wf(),
                issuers.wf(),
                j <= tx.outputs@.len(),
                self@.txs == l0.txs,
                self@.by_issuer == l0.by_issuer,
                self@.by_recipient == l0.by_recipient,
                issuers@.dom() == after_inputs.issuers,
                output_credits_fit(l0.balances, tx.outputs@),
                ({
                    let m = apply_outputs(after_inputs, tx.outputs@.take(j as int), bn, tx_hash@);
                    &&& self@.utxos == m.utxos
                    &&& self@.balances == m.balances
                    &&& txs_by_issuer_mem@ == m.by_issuer
                    &&& txs_by_recipient_mem@ == m.by_recipient
                    &&& m.issuers == after_inputs.issuers
                }),
                forall|s: Seq<char>|
                    balance_of(self@.balances, s) <= #[trigger] balance_of(l0.balances, s)
                        + outputs_total(tx.outputs@.take(j as int)),
            decreases tx.outputs@.len() - j,
        {
            let output = &tx.outputs[j];
            let ghost before = self@;
            let h = get_script_hash(&output.script, scripts_hash);
            self.utxos.upsert(
                UtxoId { tx_hash, output_index: j },
                Utxo { amount: output.amount, script: output.script.duplicate(), written_block: bn },
            );
            if !issuers.contains(&h) {
                txs_by_recipient_mem.insert(
                    WalletHashWithBn { script_hash: h, block_number: bn },
                    tx_hash,
                );
            }
            proof {
                let t = tx.outputs@.take(j as int + 1);
                assert(t.drop_last() =~= tx.outputs@.take(j as int));
                assert(t.last() == tx.outputs@[j as int]);
                lemma_outputs_total_prefix(tx.outputs@, j as int + 1);
                assert(balance_of(before.balances, output.script@) <= balance_of(l0.balances, output.script@)
                    + outputs_total(tx.outputs@.take(j as int)));
            }
            increase_account_balance(output.script.duplicate(), &mut self.balances, output.amount);
            proof {
                let t = tx.outputs@.take(j as int + 1);
                assert forall|s: Seq<char>|
                    balance_of(self@.balances, s) <= #[trigger] balance_of(l0.balances, s)
                        + outputs_total(t) by {
                    assert(balance_of(before.balances, s) <= balance_of(l0.balances, s)
                        + outputs_total(tx.outputs@.take(j as int)));
                }
            }
            j = j + 1;
        }
        assert(tx.outputs@.take(tx.outputs@.len() as int) =~= tx.outputs@);
        self.txs.upsert(
            tx_hash,
            TxRecord { tx, written_block: current_blockstamp, written_time: current_time },
        );
        Ok(())
    }

    /// Whether outputs `0..n` of `tx_hash` are all unspent.
    fn check_outputs_unspent(&self, tx_hash: &Digest, n: usize) -> (r: bool)
        requires
            self.wf(),
        ensures
            r == outputs_unspent(self@.utxos, tx_hash@, n as nat),
    {
        let mut j: usize = 0;
        while j < n
            invariant
                self.wf(),
                j <= n,
                forall|k: int| 0 <= k < j ==> #[trigger] self@.utxos.contains_key((tx_hash@, k as usize)),
            decreases n - j,
        {
            if !self.utxos.contains(&UtxoId { tx_hash: *tx_hash, output_index: j }) {
                assert(!self@.utxos.contains_key((tx_hash@, j as int as usize)));
                return false;
            }
            j = j + 1;
        }
        true
    }

    /// Whether crediting every input back cannot overflow a balance.
    fn check_input_credits(&self, inputs: &Vec<TxInput>, resolved: &Vec<ResolvedSource>) -> (r:
        bool)
        requires
            self.wf(),
            resolved@.len() == inputs@.len(),
            forall|k: int|
                0 <= k < resolved@.len() ==> (#[trigger] resolved@[k]).script@ == source_script(
                    self@.txs,
                    inputs@[k].id,
                )->0,
        ensures
            r == input_credits_fit(self@.txs, self@.balances, inputs@),
    {
        let mut total: u64 = 0;
        let mut i: usize = 0;
        while i < inputs.len()
            invariant
                i <= inputs@.len(),
                total == inputs_total(inputs@.take(i as int)),
            decreases inputs@.len() - i,
        {
            assert(inputs@.take(i as int + 1).drop_last() =~= inputs@.take(i as int));
            match total.checked_add(inputs[i].amount) {
                Some(t) => {
                    total = t;
                },
                None => {
                    proof {
                        lemma_inputs_total_prefix(inputs@, i as int + 1);
                        assert(balance_of(self@.balances, source_script(self@.txs, inputs@[0].id)->0)
                            + inputs_total(inputs@) > u64::MAX);
                    }
                    return false;
                },
            }
            i = i + 1;
        }
        assert(inputs@.take(inputs@.len() as int) =~= inputs@);
        let mut j: usize = 0;
        while j < inputs.len()
            invariant
                self.wf(),
                j <= inputs@.len(),
                resolved@.len() == inputs@.len(),
                forall|k: int|
                    0 <= k < resolved@.len() ==> (#[trigger] resolved@[k]).script@ == source_script(
                        self@.txs,
                        inputs@[k].id,
                    )->0,
                total == inputs_total(inputs@),
                forall|k: int|
                    0 <= k < j ==> balance_of(self@.balances, #[trigger] source_script(self@.txs, inputs@[k].id)->0)
                        + inputs_total(inputs@) <= u64::MAX,
            decreases inputs@.len() - j,
        {
            let balance: u64 = match self.balances.get(&resolved[j].script) {
                Some(b) => *b,
                None => 0,
            };
            assert(resolved@[j as int].script@ == source_script(self@.txs, inputs@[j as int].id)->0);
            if balance > u64::MAX - total {
                return false;
            }
            j = j + 1;
        }
        true
    }

    /// Undoes the recorded transaction `tx_hash`, whose index entries were
    /// made at `block_number`: each output's unspent output, recipient entry
    /// and credit are taken back; each input's consumed output is written
    /// again as it was, its issuer entry goes and its amount is credited back;
    /// the record goes and its transaction is returned. An unknown hash is no
    /// error: the result is `None` and nothing changes. The persisted indices
    /// are written at once. Either every table changes or none does.
    pub fn revert_tx(&mut self, block_number: u32, scripts_hash: &mut ScriptsHash, tx_hash: &Digest) -> (r:
        Result<Option<Transaction>, LedgerError>)
        requires
            old(self).wf(),
            old(scripts_hash).wf(),
        ensures
            final(self).wf(),
            final(scripts_hash).wf(),
            r == revert_outcome(old(self)@, tx_hash@),
            r matches Ok(Some(_)) ==> final(self)@ == reverted(old(self)@, block_number, tx_hash@),
            !(r matches Ok(Some(_))) ==> final(self)@ == old(self)@,
    {
        let resolved = match self.txs.get(tx_hash) {
            None => {
                return Ok(None);
            },
            Some(record) => {
                let resolved = match self.resolve_inputs(&record.tx.inputs, scripts_hash) {
                    Ok(v) => v,
                    Err(e) => {
                        if !self.check_outputs_unspent(tx_hash, record.tx.outputs.len()) {
                            return Err(LedgerError::CorruptedState);
                        }
                        return Err(e);
                    },
                };
                if !self.check_outputs_unspent(tx_hash, record.tx.outputs.len()) {
                    return Err(LedgerError::CorruptedState);
                }
                if !self.check_input_credits(&record.tx.inputs, &resolved) {
                    return Err(LedgerError::BalanceOverflow);
                }
                resolved
            },
        };
        let ghost l0 = self@;
        let ghost tx0 = l0.txs[tx_hash@].tx;
        let record = match self.txs.remove(tx_hash) {
            Some(record) => record,
            None => {
                return Ok(None);
            },
        };
        let tx = record.tx;
        let bn = block_number;
        let ghost start = WriteModel {
            utxos: l0.utxos,
            balances: l0.balances,
            issuers: Set::empty(),
            by_issuer: l0.by_issuer,
            by_recipient: l0.by_recipient,
        };
        assert(tx.outputs@.take(0) =~= Seq::<TxOutput>::empty());
        let mut j: usize = 0;
        while j < tx.outputs.len()
            invariant
                self.wf(),
                scripts_hash.wf(),
                tx == tx0,
                j <= tx.outputs@.len(),
                self@.txs == l0.txs.remove(tx_hash@),
                outputs_unspent(l0.utxos, tx_hash@, tx.outputs@.len()),
                ({
                    let m = revert_outputs(start, tx.outputs@.take(j as int), bn, tx_hash@);
                    &&& self@.utxos == m.utxos
                    &&& self@.balances == m.balances
                    &&& self@.by_issuer == m.by_issuer
                    &&& self@.by_recipient == m.by_recipient
                    &&& m.issuers == Set::<Seq<u8>>::empty()
                }),
                forall|k: int| j <= k < tx.outputs@.len() ==> #[trigger] self@.utxos.contains_key((tx_hash@, k as usize)),
                forall|s: Seq<char>|
                    balance_of(self@.balances, s) <= #[trigger] balance_of(l0.balances, s),
            decreases tx.outputs@.len() - j,
        {
            let output = &tx.outputs[j];
            let ghost before = self@;
            let h = get_script_hash(&output.script, scripts_hash);
            let _ = self.utxos.remove(&UtxoId { tx_hash: *tx_hash, output_index: j });
            self.txs_by_recipient.remove(
                WalletHashWithBn { script_hash: h, block_number: bn },
                *tx_hash,
            );
            decrease_account_balance(output.script.duplicate(), &mut self.balances, output.amount);
            proof {
                let t = tx.outputs@.take(j as int + 1);
                assert(t.drop_last() =~= tx.outputs@.take(j as int));
                assert(t.last() == tx.outputs@[j as int]);
                assert forall|k: int| j + 1 <= k < tx.outputs@.len() implies #[trigger] self@.utxos.contains_key((tx_hash@, k as usize)) by {
                    assert(before.utxos.contains_key((tx_hash@, k as usize)));
                    assert((tx_hash@, k as usize) != (tx_hash@, j as int as usize));
                }
                assert forall|s: Seq<char>|
                    balance_of(self@.balances, s) <= #[trigger] balance_of(l0.balances, s) by {
                    assert(balance_of(self@.balances, s) <= balance_of(before.balances, s));
                }
            }
            j = j + 1;
        }
        assert(tx.outputs@.take(tx.outputs@.len() as int) =~= tx.outputs@);
        let ghost after_outputs = revert_outputs(start, tx.outputs@, bn, tx_hash@);
        assert(tx.inputs@.take(0) =~= Seq::<TxInput>::empty());
        let mut i: usize = 0;
        while i < tx.inputs.len()
            invariant
                self.wf(),
                scripts_hash.wf(),
                tx == tx0,
                i <= tx.inputs@.len(),
                self@.txs == l0.txs.remove(tx_hash@),
                input_credits_fit(l0.txs, l0.balances, tx.inputs@),
                resolved@.len() == tx.inputs@.len(),
                forall|k: int|
                    0 <= k < resolved@.len() ==> {
                        &&& (#[trigger] resolved@[k]).script@ == source_script(l0.txs, tx.inputs@[k].id)->0
                        &&& resolved@[k].script_hash@ == text_hash_of(resolved@[k].script@)
                        &&& (tx.inputs@[k].id matches SourceId::Utxo(u) ==> resolved@[k].script
                            == origin_output(l0.txs, u).script && resolved@[k].written_block
                            == l0.txs[u.tx_hash@].written_block.number)
                    },
                ({
                    let m = revert_inputs(l0.txs, after_outputs, tx.inputs@.take(i as int), bn, tx_hash@);
                    &&& self@.utxos == m.utxos
                    &&& self@.balances == m.balances
                    &&& self@.by_issuer == m.by_issuer
                    &&& self@.by_recipient == m.by_recipient
                }),
                forall|s: Seq<char>|
                    balance_of(self@.balances, s) <= #[trigger] balance_of(l0.balances, s)
                        + inputs_total(tx.inputs@.take(i as int)),
            decreases tx.inputs@.len() - i,
        {
            let input = &tx.inputs[i];
            let rs = &resolved[i];
            let ghost before = self@;
            if let SourceId::Utxo(u) = &input.id {
                self.utxos.upsert(
                    *u,
                    Utxo {
                        amount: input.amount,
                        script: rs.script.duplicate(),
                        written_block: rs.written_block,
                    },
                );
            }
            self.txs_by_issuer.remove(
                WalletHashWithBn { script_hash: rs.script_hash, block_number: bn },
                *tx_hash,
            );
            proof {
                let t = tx.inputs@.take(i as int + 1);
                assert(t.drop_last() =~= tx.inputs@.take(i as int));
                assert(t.last() == tx.inputs@[i as int]);
                lemma_inputs_total_prefix(tx.inputs@, i as int + 1);
                assert(balance_of(before.balances, rs.script@) <= balance_of(l0.balances, rs.script@)
                    + inputs_total(tx.inputs@.take(i as int)));
                assert(balance_of(l0.balances, source_script(l0.txs, tx.inputs@[i as int].id)->0)
                    + inputs_total(tx.inputs@) <= u64::MAX);
            }
            increase_account_balance(rs.script.duplicate(), &mut self.balances, input.amount);
            proof {
                let t = tx.inputs@.take(i as int + 1);
                assert forall|s: Seq<char>|
                    balance_of(self@.balances, s) <= #[trigger] balance_of(l0.balances, s)
                        + inputs_total(t) by {
                    assert(balance_of(before.balances, s) <= balance_of(l0.balances, s)
                        + inputs_total(tx.inputs@.take(i as int)));
                }
            }
            i = i + 1;
        }
        assert(tx.inputs@.take(tx.inputs@.len() as int) =~= tx.inputs@);
        Ok(Some(tx))
    }

    /// Writes the accumulated index members of a block into the persisted
    /// issuer and recipient indices.
    pub fn flush_indexes(&mut self, txs_by_issuer_mem: &TxsIndex, txs_by_recipient_mem: &TxsIndex)
        requires
            old(self).wf(),
            txs_by_issuer_mem.wf(),
            txs_by_recipient_mem.wf(),
        ensures
            final(self).wf(),
            final(self)@ == (LedgerModel {
                by_issuer: old(self)@.by_issuer.union(txs_by_issuer_mem@),
                by_recipient: old(self)@.by_recipient.union(txs_by_recipient_mem@),
                ..old(self)@
            }),
    {
        self.txs_by_issuer.extend(txs_by_issuer_mem);
        self.txs_by_recipient.extend(txs_by_recipient_mem);
    }

    /// Sets the stored balance of a script.
    pub fn write_balance(&mut self, script: Script, amount: u64)
        requires
            old(self).wf(),
        ensures
            final(self).wf(),
            final(self)@ == (LedgerModel {
                balances: old(self)@.balances.insert(script@, amount),
                ..old(self)@
            }),
    {
        self.balances.upsert(script, amount);
    }

    /// The stored balance of a script; `None` where it holds nothing.
    pub fn balance(&self, script: &Script) -> (r: Option<u64>)
        requires
            self.wf(),
        ensures
            r == (if self@.balances.contains_key(script@) {
                Some(self@.balances[script@])
            } else {
                None::<u64>
            }),
    {
        match self.balances.get(script) {
            Some(b) => Some(*b),
            None => None,
        }
    }

    /// The unspent output `id`, if it is there.
    pub fn utxo(&self, id: &UtxoId) -> (r: Option<&Utxo>)
        requires
            self.wf(),
        ensures
            r == (if self@.utxos.contains_key(id@) {
                Some(&self@.utxos[id@])
            } else {
                None::<&Utxo>
            }),
    {
        self.utxos.get(id)
    }

    /// The record of transaction `tx_hash`, if it is there.
    pub fn tx_record(&self, tx_hash: &Digest) -> (r: Option<&TxRecord>)
        requires
            self.wf(),
        ensures
            r == (if self@.txs.contains_key(tx_hash@) {
                Some(&self@.txs[tx_hash@])
            } else {
                None::<&TxRecord>
            }),
    {
        self.txs.get(tx_hash)
    }

    /// The persisted issuer index.
    pub fn txs_by_issuer(&self) -> (r: &TxsIndex)
        requires
            self.wf(),
        ensures
            r.wf(),
            r@ == self@.by_issuer,
    {
        &self.txs_by_issuer
    }

    /// The persisted recipient index.
    pub fn txs_by_recipient(&self) -> (r: &TxsIndex)
        requires
            self.wf(),
        ensures
            r.wf(),
            r@ == self@.by_recipient,
    {
        &self.txs_by_recipient
    }

    /// Whether every consumed output is unspent and consumed once.
    fn check_spendable(&self, inputs: &Vec<TxInput>) -> (r: bool)
        requires
            self.wf(),
        ensures
            r == spendable(self@.utxos, inputs@),
    {
        let mut i: usize = 0;
        while i < inputs.len()
            invariant
                self.wf(),
                i <= inputs@.len(),
                spendable(self@.utxos, inputs@.take(i as int)),
            decreases inputs@.len() - i,
        {
            assert(inputs@.take(i as int + 1).take(i as int) =~= inputs@.take(i as int));
            if let SourceId::Utxo(u) = &inputs[i].id {
                if !self.utxos.contains(u) {
                    assert(!spendable(self@.utxos, inputs@)) by {
                        assert(consumed(inputs@[i as int].id).is_some());
                    }
                    return false;
                }
                let mut j: usize = 0;
                while j < i
                    invariant
                        i < inputs@.len(),
                        j <= i,
                        inputs@[i as int].id == SourceId::Utxo(*u),
                        forall|k: int| 0 <= k < j ==> consumed(inputs@[k].id) != consumed(inputs@[i as int].id),
                    decreases i - j,
                {
                    if let SourceId::Utxo(w) = &inputs[j].id {
                        if w.same_key(u) {
                            assert(!spendable(self@.utxos, inputs@)) by {
                                assert(consumed(inputs@[i as int].id).is_some());
                                assert(consumed(inputs@[j as int].id) == consumed(inputs@[i as int].id));
                            }
                            return false;
                        }
                    }
                    j = j + 1;
                }
            }
            let ghost t = inputs@.take(i as int + 1);
            let ghost p = inputs@.take(i as int);
            assert forall|a: int|
                0 <= a < i + 1 && (#[trigger] consumed(t[a].id)).is_some() implies {
                    &&& self@.utxos.contains_key(consumed(t[a].id)->0)
                    &&& forall|b: int| 0 <= b < a ==> #[trigger] consumed(t[b].id) != consumed(t[a].id)
                } by {
                if a < i {
                    assert(t[a] == p[a]);
                    assert(consumed(p[a].id).is_some());
                    assert forall|b: int| 0 <= b < a implies #[trigger] consumed(t[b].id) != consumed(t[a].id) by {
                        assert(t[b] == p[b]);
                    }
                }
            }
            assert(spendable(self@.utxos, t));
            i = i + 1;
        }
        assert(inputs@.take(inputs@.len() as int) =~= inputs@);
        true
    }
}

} // verus!
