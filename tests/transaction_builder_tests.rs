use arcnova_chain::state::State;
use arcnova_chain::transaction::{Transaction, TxOutput};
use arcnova_chain::tx_builder::{TxBuildError, TxBuilder};
use arcnova_chain::utxo::UtxoSet;
use arcnova_chain::wallet::Wallet;

fn digest(byte: u8) -> arcnova_chain::crypto::Hash {
    arcnova_chain::crypto::Hash([byte; 32])
}

// UTXO selection + change logic
#[test]
fn test_tx_builder_basic_send() {
    let wallet = Wallet::new();
    let from = wallet.address();

    let fake_txid = digest(9);

    let mut utxo_set = UtxoSet::default();
    utxo_set.insert(
        (fake_txid.clone(), 0),
        TxOutput {
            value: 100_000,
            address: from.clone(),
        },
    );

    let state = State { utxo_set };
    let builder = TxBuilder::new(&state);

    let tx = builder
        .build_payment_tx(&wallet, "bob", 50_000, 1_000)
        .unwrap();

    assert_eq!(tx.outputs.len(), 2);
    assert_eq!(tx.outputs[0].value, 50_000);
    assert_eq!(tx.outputs[1].value, 49_000);
    assert_eq!(tx.outputs[0].address, "bob");
    assert_eq!(tx.outputs[1].address, from);

    assert!(state.validate_transaction(&tx));
}

// Insufficient funds error
#[test]
fn test_tx_builder_insufficient_funds() {
    let wallet = Wallet::new();
    let from = wallet.address();

    let fake_txid = digest(2);

    let mut utxo_set = UtxoSet::default();
    utxo_set.insert(
        (fake_txid.clone(), 0),
        TxOutput {
            value: 10_000,
            address: from.clone(),
        },
    );

    let state = State { utxo_set };
    let builder = TxBuilder::new(&state);

    let err = builder
        .build_payment_tx(&wallet, "alice", 50_000, 1_000)
        .unwrap_err();

    match err {
        TxBuildError::InsufficientFunds { required, available } => {
            assert_eq!(required, 51_000);
            assert_eq!(available, 10_000);
        }
        _ => panic!("wrong error variant"),
    }
}

// No UTXOs available
#[test]
fn test_tx_builder_no_utxos() {
    let wallet = Wallet::new();
    let state = State { utxo_set: UtxoSet::default() };
    let builder = TxBuilder::new(&state);

    let err = builder
        .build_payment_tx(&wallet, "bob", 10_000, 100)
        .unwrap_err();

    match err {
        TxBuildError::NoUtxos => {}
        _ => panic!("wrong error variant"),
    }
}

// The id is a real digest, not the zero placeholder
#[test]
fn test_txid_not_zero() {
    let wallet = Wallet::new();
    let from = wallet.address();
    let fake_txid = digest(7);

    let mut utxo_set = UtxoSet::default();
    utxo_set.insert(
        (fake_txid.clone(), 0),
        TxOutput {
            value: 42_000,
            address: from.clone(),
        },
    );

    let state = State { utxo_set };
    let builder = TxBuilder::new(&state);

    let tx = builder
        .build_payment_tx(&wallet, "test", 20_000, 1_000)
        .unwrap();

    assert_ne!(tx.id.0, [0u8; 32]);
}

// Signatures made by the builder validate
#[test]
fn test_transaction_signature_valid() {
    let wallet = Wallet::new();
    let from = wallet.address();

    let fake_txid = digest(3);

    let mut utxo_set = UtxoSet::default();
    utxo_set.insert(
        (fake_txid.clone(), 0),
        TxOutput {
            value: 60_000,
            address: from.clone(),
        },
    );

    let state = State { utxo_set };
    let builder = TxBuilder::new(&state);

    let tx = builder
        .build_payment_tx(&wallet, "bob", 10_000, 1_000)
        .unwrap();

    assert!(state.validate_transaction(&tx));
}

// A corrupted signature fails validation
#[test]
fn test_invalid_signature_fails_validation() {
    let wallet = Wallet::new();
    let from = wallet.address();

    let fake_txid = digest(5);

    let mut utxo_set = UtxoSet::default();
    utxo_set.insert(
        (fake_txid.clone(), 0),
        TxOutput {
            value: 80_000,
            address: from.clone(),
        },
    );

    let state = State { utxo_set };
    let builder = TxBuilder::new(&state);

    let mut tx = builder
        .build_payment_tx(&wallet, "bob", 20_000, 1_000)
        .unwrap();

    tx.inputs[0].signature = vec![9, 9, 9, 9];

    assert!(!state.validate_transaction(&tx));
}

// A spent output cannot be spent again. The change of the first payment goes
// back to the wallet, so a second payment is built from that change alone.
#[test]
fn test_double_spend_detected() {
    let wallet = Wallet::new();
    let from = wallet.address();
    let fake_txid = digest(8);

    let mut utxo_set = UtxoSet::default();

    utxo_set.insert(
        (fake_txid.clone(), 0),
        TxOutput {
            value: 100_000,
            address: from.clone(),
        },
    );

    let mut state = State { utxo_set };

    let builder = TxBuilder::new(&state);
    let tx1 = builder.build_payment_tx(&wallet, "bob", 30_000, 1_000).unwrap();
    assert!(state.validate_transaction(&tx1));

    state.utxo_set.apply_transaction(&tx1);

    // The same transaction again is a double spend.
    assert!(!state.validate_transaction(&tx1));

    let builder2 = TxBuilder::new(&state);
    let tx2 = builder2.build_payment_tx(&wallet, "alice", 20_000, 1_000).unwrap();
    assert_eq!(tx2.inputs.len(), 1);
    assert_eq!(tx2.inputs[0].txid, tx1.id);
    assert_eq!(tx2.inputs[0].index, 1);
    assert!(tx2.inputs.iter().all(|i| i.txid != fake_txid));
}

// Coinbase transaction is always valid
#[test]
fn test_coinbase_is_valid() {
    let coinbase = Transaction {
        id: digest(1),
        inputs: vec![],
        outputs: vec![TxOutput {
            value: 50_000,
            address: "miner1".into(),
        }],
    };

    let state = State {
        utxo_set: UtxoSet::default(),
    };

    assert!(state.validate_transaction(&coinbase));
}

// Sum(inputs) < sum(outputs) must be invalid (inflation check)
#[test]
fn test_invalid_inflation_transaction() {
    let wallet = Wallet::new();
    let from = wallet.address();
    let fake_txid = digest(4);

    let mut utxo_set = UtxoSet::default();
    utxo_set.insert(
        (fake_txid.clone(), 0),
        TxOutput {
            value: 20_000,
            address: from.clone(),
        },
    );

    let state = State { utxo_set };
    let builder = TxBuilder::new(&state);

    let mut tx = builder
        .build_payment_tx(&wallet, "bob", 19_000, 1_000)
        .unwrap();

    tx.outputs[0].value = 50_000;

    assert!(!state.validate_transaction(&tx));
}
