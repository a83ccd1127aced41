use gva_ledger::index::TxsIndex;
use gva_ledger::ledger::{Ledger, LedgerError};
use gva_ledger::script_hash::{get_script_hash, single_sig_script, ScriptsHash};
use gva_ledger::subscription::{PendingTxsSubscription, TxsEvent};
use gva_ledger::types::{
    Blockstamp, Digest, Script, SourceId, Transaction, TxInput, TxOutput, UtxoId,
    WalletHashWithBn,
};

const PK1: &str = "7iMV3b6j2hSj5WtrfchfvxivS9swN3opDgxudeHq64fb";
const PK2: &str = "42jMJtb8chXrpHMAMcreVdyPJK7LtWjEeRqkPw4eSEVp";

fn digest(b: u8) -> Digest {
    Digest { bytes: [b; 32] }
}

fn script_of(pk: &str) -> Script {
    single_sig_script(&pk.to_string()).expect("valid key")
}

fn block0() -> Blockstamp {
    Blockstamp { number: 0, hash: digest(0) }
}

fn ud_input(pk: &str, amount: u64) -> TxInput {
    TxInput {
        amount,
        id: SourceId::Dividend { issuer: pk.to_string(), block_number: 0 },
    }
}

fn utxo_input(tx_hash: Digest, output_index: usize, amount: u64) -> TxInput {
    TxInput { amount, id: SourceId::Utxo(UtxoId { tx_hash, output_index }) }
}

fn output(script: &Script, amount: u64) -> TxOutput {
    TxOutput { amount, script: script.clone() }
}

fn key(h: Digest) -> WalletHashWithBn {
    WalletHashWithBn { script_hash: h, block_number: 0 }
}

#[test]
fn test_apply_tx() {
    let ud0_amount: u64 = 1000;
    let o1_amount = ud0_amount - 600;
    let o2_amount = ud0_amount - 400;

    let mut ledger = Ledger::new();
    let current_blockstamp = block0();
    let script = script_of(PK1);
    let script2 = script_of(PK2);
    let mut scripts_hash = ScriptsHash::new();
    let script_hash = get_script_hash(&script, &mut scripts_hash);
    let script2_hash = get_script_hash(&script2, &mut scripts_hash);

    ledger.write_balance(script.clone(), ud0_amount);

    let tx1 = Transaction {
        inputs: vec![ud_input(PK1, ud0_amount)],
        outputs: vec![output(&script2, o1_amount), output(&script, o2_amount)],
    };
    let tx1_hash = digest(1);

    let mut txs_by_issuer_mem = TxsIndex::new();
    let mut txs_by_recipient_mem = TxsIndex::new();
    ledger
        .apply_tx(
            current_blockstamp,
            0,
            &mut scripts_hash,
            tx1_hash,
            tx1.clone(),
            &mut txs_by_issuer_mem,
            &mut txs_by_recipient_mem,
        )
        .unwrap();

    assert_eq!(txs_by_issuer_mem.len(), 1);
    assert!(txs_by_issuer_mem.contains(&key(script_hash), &tx1_hash));
    assert_eq!(txs_by_recipient_mem.len(), 1);
    assert!(txs_by_recipient_mem.contains(&key(script2_hash), &tx1_hash));

    assert_eq!(ledger.balance(&script2), Some(o1_amount));
    assert_eq!(ledger.balance(&script), Some(o2_amount));

    let tx2 = Transaction {
        inputs: vec![utxo_input(tx1_hash, 0, o1_amount)],
        outputs: vec![output(&script, o1_amount)],
    };
    let tx2_hash = digest(2);

    let mut txs_by_issuer_mem = TxsIndex::new();
    let mut txs_by_recipient_mem = TxsIndex::new();
    ledger
        .apply_tx(
            current_blockstamp,
            0,
            &mut scripts_hash,
            tx2_hash,
            tx2.clone(),
            &mut txs_by_issuer_mem,
            &mut txs_by_recipient_mem,
        )
        .unwrap();

    assert_eq!(txs_by_issuer_mem.len(), 1);
    assert!(txs_by_issuer_mem.contains(&key(script2_hash), &tx2_hash));
    assert_eq!(txs_by_recipient_mem.len(), 1);
    assert!(txs_by_recipient_mem.contains(&key(script_hash), &tx2_hash));

    assert_eq!(ledger.balance(&script2), None);
    assert_eq!(ledger.balance(&script), Some(ud0_amount));

    let reverted = ledger.revert_tx(current_blockstamp.number, &mut scripts_hash, &tx2_hash);
    assert_eq!(reverted, Ok(Some(tx2)));

    assert_eq!(ledger.balance(&script2), Some(o1_amount));
    assert_eq!(ledger.balance(&script), Some(o2_amount));

    let reverted = ledger.revert_tx(current_blockstamp.number, &mut scripts_hash, &tx1_hash);
    assert_eq!(reverted, Ok(Some(tx1)));

    assert_eq!(ledger.balance(&script2), None);
    assert_eq!(ledger.balance(&script), Some(ud0_amount));
}

#[test]
fn apply_then_revert_restores_tables() {
    let mut ledger = Ledger::new();
    let mut scripts_hash = ScriptsHash::new();
    let a = script_of(PK1);
    let b = script_of(PK2);
    ledger.write_balance(a.clone(), 1000);
    let tx1 = Transaction { inputs: vec![ud_input(PK1, 1000)], outputs: vec![output(&b, 1000)] };
    let mut acc_i = TxsIndex::new();
    let mut acc_r = TxsIndex::new();
    ledger
        .apply_tx(block0(), 5, &mut scripts_hash, digest(1), tx1, &mut acc_i, &mut acc_r)
        .unwrap();
    ledger.flush_indexes(&acc_i, &acc_r);

    let tx2 = Transaction {
        inputs: vec![utxo_input(digest(1), 0, 1000)],
        outputs: vec![output(&a, 300), output(&b, 700)],
    };
    let mut acc_i = TxsIndex::new();
    let mut acc_r = TxsIndex::new();
    ledger
        .apply_tx(block0(), 6, &mut scripts_hash, digest(2), tx2, &mut acc_i, &mut acc_r)
        .unwrap();
    ledger.flush_indexes(&acc_i, &acc_r);
    assert_eq!(ledger.balance(&a), Some(300));
    assert_eq!(ledger.balance(&b), Some(700));
    assert!(ledger.utxo(&UtxoId { tx_hash: digest(1), output_index: 0 }).is_none());
    assert_eq!(ledger.txs_by_issuer().len(), 2);
    assert_eq!(ledger.txs_by_recipient().len(), 2);

    assert!(ledger.revert_tx(0, &mut scripts_hash, &digest(2)).unwrap().is_some());
    assert_eq!(ledger.balance(&a), None);
    assert_eq!(ledger.balance(&b), Some(1000));
    let restored = ledger.utxo(&UtxoId { tx_hash: digest(1), output_index: 0 }).unwrap();
    assert_eq!(restored.amount, 1000);
    assert_eq!(restored.script, b);
    assert_eq!(restored.written_block, 0);
    assert!(ledger.utxo(&UtxoId { tx_hash: digest(2), output_index: 0 }).is_none());
    assert!(ledger.tx_record(&digest(2)).is_none());
    assert!(ledger.tx_record(&digest(1)).is_some());
    assert_eq!(ledger.txs_by_issuer().len(), 1);
    assert_eq!(ledger.txs_by_recipient().len(), 1);
}

#[test]
fn self_transfer_adds_no_recipient_entry() {
    let mut ledger = Ledger::new();
    let mut scripts_hash = ScriptsHash::new();
    let a = script_of(PK1);
    ledger.write_balance(a.clone(), 50);
    let tx = Transaction { inputs: vec![ud_input(PK1, 50)], outputs: vec![output(&a, 50)] };
    let mut acc_i = TxsIndex::new();
    let mut acc_r = TxsIndex::new();
    ledger
        .apply_tx(block0(), 0, &mut scripts_hash, digest(9), tx, &mut acc_i, &mut acc_r)
        .unwrap();
    assert_eq!(acc_i.len(), 1);
    assert_eq!(acc_r.len(), 0);
    assert_eq!(ledger.balance(&a), Some(50));
}

#[test]
fn script_hash_is_memoized() {
    let mut scripts_hash = ScriptsHash::new();
    let s = Script { text: "abc".to_string() };
    let h1 = get_script_hash(&s, &mut scripts_hash);
    assert_eq!(scripts_hash.len(), 1);
    let h2 = get_script_hash(&s, &mut scripts_hash);
    assert_eq!(h1, h2);
    assert_eq!(scripts_hash.len(), 1);
    let expected: [u8; 32] = [
        0xba, 0x78, 0x16, 0xbf, 0x8f, 0x01, 0xcf, 0xea, 0x41, 0x41, 0x40, 0xde, 0x5d, 0xae, 0x22,
        0x23, 0xb0, 0x03, 0x61, 0xa3, 0x96, 0x17, 0x7a, 0x9c, 0xb4, 0x10, 0xff, 0x61, 0xf2, 0x00,
        0x15, 0xad,
    ];
    assert_eq!(h1.bytes, expected);
    let other = get_script_hash(&Script { text: "abd".to_string() }, &mut scripts_hash);
    assert_ne!(other, h1);
    assert_eq!(scripts_hash.len(), 2);
}

#[test]
fn single_sig_script_text() {
    assert_eq!(script_of(PK1).text, format!("SIG({})", PK1));
    assert_eq!(single_sig_script(&"not a key!".to_string()), None);
}

#[test]
fn unknown_origin_is_corrupted_state() {
    let mut ledger = Ledger::new();
    let mut scripts_hash = ScriptsHash::new();
    let a = script_of(PK1);
    let tx = Transaction {
        inputs: vec![utxo_input(digest(7), 0, 10)],
        outputs: vec![output(&a, 10)],
    };
    let mut acc_i = TxsIndex::new();
    let mut acc_r = TxsIndex::new();
    let r = ledger.apply_tx(block0(), 0, &mut scripts_hash, digest(8), tx, &mut acc_i, &mut acc_r);
    assert_eq!(r, Err(LedgerError::CorruptedState));
    assert_eq!(acc_i.len(), 0);
    assert!(ledger.tx_record(&digest(8)).is_none());
    assert_eq!(ledger.balance(&a), None);
}

#[test]
fn double_spend_in_one_tx_is_corrupted_state() {
    let mut ledger = Ledger::new();
    let mut scripts_hash = ScriptsHash::new();
    let a = script_of(PK1);
    let tx1 = Transaction { inputs: vec![ud_input(PK1, 10)], outputs: vec![output(&a, 10)] };
    let mut acc_i = TxsIndex::new();
    let mut acc_r = TxsIndex::new();
    ledger
        .apply_tx(block0(), 0, &mut scripts_hash, digest(1), tx1, &mut acc_i, &mut acc_r)
        .unwrap();
    let tx2 = Transaction {
        inputs: vec![utxo_input(digest(1), 0, 10), utxo_input(digest(1), 0, 10)],
        outputs: vec![output(&a, 20)],
    };
    let r = ledger.apply_tx(block0(), 0, &mut scripts_hash, digest(2), tx2, &mut acc_i, &mut acc_r);
    assert_eq!(r, Err(LedgerError::CorruptedState));
    assert!(ledger.utxo(&UtxoId { tx_hash: digest(1), output_index: 0 }).is_some());
}

#[test]
fn credit_beyond_u64_is_balance_overflow() {
    let mut ledger = Ledger::new();
    let mut scripts_hash = ScriptsHash::new();
    let a = script_of(PK1);
    let b = script_of(PK2);
    ledger.write_balance(b.clone(), u64::MAX - 5);
    let tx = Transaction { inputs: vec![ud_input(PK1, 10)], outputs: vec![output(&b, 10)] };
    let mut acc_i = TxsIndex::new();
    let mut acc_r = TxsIndex::new();
    let r = ledger.apply_tx(block0(), 0, &mut scripts_hash, digest(1), tx, &mut acc_i, &mut acc_r);
    assert_eq!(r, Err(LedgerError::BalanceOverflow));
    assert_eq!(ledger.balance(&b), Some(u64::MAX - 5));
    assert_eq!(ledger.balance(&a), None);
}

#[test]
fn debit_of_absent_balance_is_no_op_and_exact_debit_removes() {
    let mut ledger = Ledger::new();
    let mut scripts_hash = ScriptsHash::new();
    let a = script_of(PK1);
    let b = script_of(PK2);
    // No stored balance for the issuer: the debit changes nothing.
    let tx = Transaction { inputs: vec![ud_input(PK1, 10)], outputs: vec![output(&b, 10)] };
    let mut acc_i = TxsIndex::new();
    let mut acc_r = TxsIndex::new();
    ledger
        .apply_tx(block0(), 0, &mut scripts_hash, digest(1), tx, &mut acc_i, &mut acc_r)
        .unwrap();
    assert_eq!(ledger.balance(&a), None);
    assert_eq!(ledger.balance(&b), Some(10));
    // Spending the whole balance removes the entry.
    let tx2 = Transaction {
        inputs: vec![utxo_input(digest(1), 0, 10)],
        outputs: vec![output(&a, 10)],
    };
    ledger
        .apply_tx(block0(), 0, &mut scripts_hash, digest(2), tx2, &mut acc_i, &mut acc_r)
        .unwrap();
    assert_eq!(ledger.balance(&b), None);
    assert_eq!(ledger.balance(&a), Some(10));
}

#[test]
fn revert_unknown_tx_is_none() {
    let mut ledger = Ledger::new();
    let mut scripts_hash = ScriptsHash::new();
    assert_eq!(ledger.revert_tx(0, &mut scripts_hash, &digest(3)), Ok(None));
}

#[test]
fn revert_with_spent_output_is_corrupted_state() {
    let mut ledger = Ledger::new();
    let mut scripts_hash = ScriptsHash::new();
    let a = script_of(PK1);
    let b = script_of(PK2);
    let tx1 = Transaction { inputs: vec![ud_input(PK1, 10)], outputs: vec![output(&b, 10)] };
    let tx2 = Transaction {
        inputs: vec![utxo_input(digest(1), 0, 10)],
        outputs: vec![output(&a, 10)],
    };
    let mut acc_i = TxsIndex::new();
    let mut acc_r = TxsIndex::new();
    ledger
        .apply_tx(block0(), 0, &mut scripts_hash, digest(1), tx1, &mut acc_i, &mut acc_r)
        .unwrap();
    ledger
        .apply_tx(block0(), 0, &mut scripts_hash, digest(2), tx2, &mut acc_i, &mut acc_r)
        .unwrap();
    let r = ledger.revert_tx(0, &mut scripts_hash, &digest(1));
    assert_eq!(r, Err(LedgerError::CorruptedState));
    assert!(ledger.tx_record(&digest(1)).is_some());
    assert_eq!(ledger.balance(&a), Some(10));
}

#[test]
fn pending_txs_of_events() {
    let sub = PendingTxsSubscription::default();
    let t = Transaction { inputs: vec![], outputs: vec![] };
    assert_eq!(sub.receive_pending_txs(vec![TxsEvent::Remove]), None);
    assert_eq!(sub.receive_pending_txs(vec![]), None);
    let r = sub.receive_pending_txs(vec![
        TxsEvent::Remove,
        TxsEvent::Upsert { tx: t.clone() },
        TxsEvent::Remove,
        TxsEvent::Upsert { tx: t.clone() },
    ]);
    assert_eq!(r, Some(vec![t.clone(), t]));
}

#[test]
fn non_ascii_or_overlong_key_is_no_key() {
    assert_eq!(single_sig_script(&"é7iMV3b6j2hSj5Wtrfchfvxiv".to_string()), None);
    assert_eq!(single_sig_script(&"1".repeat(300)), None);
    let mut ledger = Ledger::new();
    let mut scripts_hash = ScriptsHash::new();
    let a = script_of(PK1);
    let tx = Transaction { inputs: vec![ud_input("é", 5)], outputs: vec![output(&a, 5)] };
    let mut acc_i = TxsIndex::new();
    let mut acc_r = TxsIndex::new();
    let r = ledger.apply_tx(block0(), 0, &mut scripts_hash, digest(1), tx, &mut acc_i, &mut acc_r);
    assert_eq!(r, Err(LedgerError::CorruptedState));
}

#[test]
fn balances_match_unspent_outputs_after_utxo_spend() {
    let mut ledger = Ledger::new();
    let mut scripts_hash = ScriptsHash::new();
    let a = script_of(PK1);
    let b = script_of(PK2);
    let tx1 = Transaction { inputs: vec![ud_input(PK1, 90)], outputs: vec![output(&b, 90)] };
    let mut acc_i = TxsIndex::new();
    let mut acc_r = TxsIndex::new();
    ledger
        .apply_tx(block0(), 0, &mut scripts_hash, digest(1), tx1, &mut acc_i, &mut acc_r)
        .unwrap();
    let tx2 = Transaction {
        inputs: vec![utxo_input(digest(1), 0, 90)],
        outputs: vec![output(&a, 20), output(&b, 30), output(&a, 40)],
    };
    ledger
        .apply_tx(block0(), 0, &mut scripts_hash, digest(2), tx2, &mut acc_i, &mut acc_r)
        .unwrap();
    let held = |s: &Script| -> u64 {
        (0..3usize)
            .filter_map(|i| ledger.utxo(&UtxoId { tx_hash: digest(2), output_index: i }))
            .filter(|u| &u.script == s)
            .map(|u| u.amount)
            .sum()
    };
    assert_eq!(ledger.balance(&a), Some(60));
    assert_eq!(held(&a), 60);
    assert_eq!(ledger.balance(&b), Some(30));
    assert_eq!(held(&b), 30);
    assert!(ledger.utxo(&UtxoId { tx_hash: digest(1), output_index: 0 }).is_none());
}
