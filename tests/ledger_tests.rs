use arcnova_chain::block::{hash_meets_difficulty, Block};
use arcnova_chain::chain::Blockchain;
use arcnova_chain::crypto::{sign_message, verify_signature};
use arcnova_chain::decoding::DecodeError;
use arcnova_chain::merkle::{hash_leaf, merkle_root};
use arcnova_chain::state::{Rejection, State};
use arcnova_chain::transaction::{Transaction, TxInput, TxOutput};
use arcnova_chain::tx_builder::{TxBuildError, TxBuilder};
use arcnova_chain::utxo::UtxoSet;
use arcnova_chain::wallet::{address_from_public_key_bytes, Wallet};

fn digest(byte: u8) -> arcnova_chain::crypto::Hash {
    arcnova_chain::crypto::Hash([byte; 32])
}

fn hex(bytes: &[u8]) -> String {
    bytes.iter().map(|b| format!("{:02x}", b)).collect()
}

fn funded(wallet: &Wallet, values: &[u64]) -> State {
    let mut utxo_set = UtxoSet::default();
    for (i, v) in values.iter().enumerate() {
        utxo_set.insert(
            (digest(100 + i as u8), 0),
            TxOutput { value: *v, address: wallet.address() },
        );
    }
    State { utxo_set }
}

#[test]
fn address_is_hex_of_first_twenty_digest_bytes() {
    let addr = address_from_public_key_bytes(&[0u8; 32]).unwrap();
    assert_eq!(addr, "66687aadf862bd776c8fc18b8e9f8e2008971485");
    assert_eq!(addr.len(), 40);
    assert!(address_from_public_key_bytes(&[0u8; 31]).is_none());
    assert!(address_from_public_key_bytes(&[]).is_none());
}

#[test]
fn wallet_address_matches_its_key() {
    let w = Wallet::new();
    let pk = w.public_key_bytes();
    assert_eq!(pk.len(), 32);
    assert_eq!(address_from_public_key_bytes(&pk).unwrap(), w.address());
    let again = Wallet::from_secret_key(w.secret_key_bytes());
    assert_eq!(again.address(), w.address());
}

#[test]
fn signatures_verify_and_tampering_fails() {
    let w = Wallet::new();
    let msg = b"ledger message";
    let sig = w.sign(msg);
    assert_eq!(sig.len(), 64);
    assert_eq!(sig, sign_message(&w.secret_key_bytes(), msg));
    assert!(verify_signature(&w.public_key_bytes(), &sig, msg));
    assert!(!verify_signature(&w.public_key_bytes(), &sig, b"other message"));
    let mut bad = sig.clone();
    bad[0] ^= 1;
    assert!(!verify_signature(&w.public_key_bytes(), &bad, msg));
    assert!(!verify_signature(&w.public_key_bytes(), &[1, 2, 3], msg));
    assert!(!verify_signature(&[1, 2, 3], &sig, msg));
}

#[test]
fn merkle_root_of_nothing_is_zero() {
    assert_eq!(merkle_root(&vec![]).0, [0u8; 32]);
}

#[test]
fn merkle_root_of_one_leaf_is_its_digest() {
    let root = merkle_root(&vec![b"abc".to_vec()]);
    assert_eq!(
        hex(&root.0),
        "ba7816bf8f01cfea414140de5dae2223b00361a396177a9cb410ff61f20015ad"
    );
    assert_eq!(root, hash_leaf(b"abc"));
}

#[test]
fn merkle_root_pairs_and_duplicates_odd_leaf() {
    let a = hash_leaf(b"a");
    let b = hash_leaf(b"b");
    let c = hash_leaf(b"c");
    let pair = |x: &arcnova_chain::crypto::Hash, y: &arcnova_chain::crypto::Hash| {
        let mut v = x.0.to_vec();
        v.extend_from_slice(&y.0);
        hash_leaf(&v)
    };
    let two = merkle_root(&vec![b"a".to_vec(), b"b".to_vec()]);
    assert_eq!(two, pair(&a, &b));
    let three = merkle_root(&vec![b"a".to_vec(), b"b".to_vec(), b"c".to_vec()]);
    assert_eq!(three, pair(&pair(&a, &b), &pair(&c, &c)));
}

#[test]
fn merkle_root_is_deterministic_and_order_sensitive() {
    let leaves = vec![b"tx one".to_vec(), b"tx two".to_vec()];
    assert_eq!(merkle_root(&leaves), merkle_root(&leaves.clone()));
    let swapped = vec![b"tx two".to_vec(), b"tx one".to_vec()];
    assert_ne!(merkle_root(&leaves), merkle_root(&swapped));
}

#[test]
fn transaction_hash_is_digest_of_canonical_bytes() {
    let tx = Transaction {
        id: digest(1),
        inputs: vec![TxInput { txid: digest(2), index: 3, signature: vec![4], public_key: vec![5, 6] }],
        outputs: vec![TxOutput { value: 7, address: "ab".into() }],
    };
    let bytes = tx.encode();
    // id, count, input (txid, index, signature, key), count, output (value, address)
    assert_eq!(bytes.len(), 32 + 8 + (32 + 4 + 8 + 1 + 8 + 2) + 8 + (8 + 8 + 2));
    assert_eq!(&bytes[32..40], &[1, 0, 0, 0, 0, 0, 0, 0]);
    assert_eq!(&bytes[72..76], &[3, 0, 0, 0]);
    assert_eq!(&bytes[bytes.len() - 2..], b"ab");
    assert_eq!(tx.calculate_hash(), hash_leaf(&bytes));
    assert!(!tx.is_coinbase());
}

#[test]
fn apply_transaction_spends_inputs_and_adds_outputs() {
    let w = Wallet::new();
    let mut state = funded(&w, &[70_000]);
    let tx = TxBuilder::new(&state).build_payment_tx(&w, "bob", 50_000, 500).unwrap();
    assert!(state.validate_transaction(&tx));
    state.utxo_set.apply_transaction(&tx);
    assert_eq!(state.utxo_set.available_balance(&w.address()), 19_500);
    assert_eq!(state.utxo_set.available_balance("bob"), 50_000);
    assert!(state.utxo_set.get(&digest(100), 0).is_none());
    assert_eq!(state.utxo_set.get(&tx.id, 0).unwrap().value, 50_000);
    assert_eq!(state.utxo_set.find_unspent("bob").len(), 1);
    assert_eq!(state.utxo_set.find_unspent("nobody").len(), 0);
}

#[test]
fn exact_payment_has_no_change() {
    let w = Wallet::new();
    let state = funded(&w, &[30_000, 20_000]);
    let tx = TxBuilder::new(&state).build_payment_tx(&w, "carol", 49_000, 1_000).unwrap();
    assert_eq!(tx.inputs.len(), 2);
    assert_eq!(tx.outputs.len(), 1);
    assert_eq!(tx.outputs[0].value, 49_000);
    assert!(state.validate_transaction(&tx));
}

#[test]
fn selection_stops_at_first_sufficient_prefix() {
    let w = Wallet::new();
    let state = funded(&w, &[10_000, 30_000, 50_000]);
    let tx = TxBuilder::new(&state).build_payment_tx(&w, "dave", 35_000, 1_000).unwrap();
    assert_eq!(tx.inputs.len(), 2);
    assert_eq!(tx.inputs[0].txid, digest(100));
    assert_eq!(tx.inputs[1].txid, digest(101));
    assert_eq!(tx.outputs[1].value, 4_000);
    assert_eq!(tx.inputs[0].signature, tx.inputs[1].signature);
}

#[test]
fn insufficient_funds_reports_all_owned_value() {
    let w = Wallet::new();
    let state = funded(&w, &[10_000, 5_000]);
    match TxBuilder::new(&state).build_payment_tx(&w, "erin", 15_000, 1) {
        Err(TxBuildError::InsufficientFunds { required, available }) => {
            assert_eq!(required, 15_001);
            assert_eq!(available, 15_000);
        }
        _ => panic!("wrong error variant"),
    }
}

#[test]
fn rejection_reasons() {
    let w = Wallet::new();
    let state = funded(&w, &[40_000]);
    let tx = TxBuilder::new(&state).build_payment_tx(&w, "bob", 10_000, 0).unwrap();
    assert_eq!(state.check_transaction(&tx), Ok(()));

    let mut dup = tx.clone();
    dup.inputs.push(tx.inputs[0].clone());
    assert_eq!(state.check_transaction(&dup), Err(Rejection::DoubleReference));

    let mut unknown = tx.clone();
    unknown.inputs[0].txid = digest(42);
    assert_eq!(state.check_transaction(&unknown), Err(Rejection::UnknownUtxo));

    let other = Wallet::new();
    let mut foreign = tx.clone();
    foreign.inputs[0].public_key = other.public_key_bytes();
    foreign.inputs[0].signature = other.sign(&tx.id.0);
    assert_eq!(state.check_transaction(&foreign), Err(Rejection::AddressMismatch));

    let mut forged = tx.clone();
    forged.inputs[0].signature = other.sign(&tx.id.0);
    assert_eq!(state.check_transaction(&forged), Err(Rejection::BadSignature));

    let mut inflated = tx.clone();
    inflated.outputs[1].value = 30_001;
    assert_eq!(state.check_transaction(&inflated), Err(Rejection::ValueMismatch));
    assert!(!state.validate_transaction(&inflated));
}

#[test]
fn validation_is_repeatable_and_changes_nothing() {
    let w = Wallet::new();
    let state = funded(&w, &[40_000]);
    let tx = TxBuilder::new(&state).build_payment_tx(&w, "bob", 10_000, 0).unwrap();
    let first = state.validate_transaction(&tx);
    let second = state.validate_transaction(&tx);
    assert!(first && second);
    assert_eq!(state.utxo_set.available_balance(&w.address()), 40_000);
}

#[test]
fn coinbase_with_any_outputs_is_valid() {
    let state = State { utxo_set: UtxoSet::default() };
    let coinbase = Transaction {
        id: digest(3),
        inputs: vec![],
        outputs: vec![
            TxOutput { value: u64::MAX, address: "m".into() },
            TxOutput { value: u64::MAX, address: "m".into() },
        ],
    };
    assert!(state.validate_transaction(&coinbase));
}

#[test]
fn mined_hash_meets_difficulty() {
    let block = Block::seal(1, 1_700_000_000_000, vec![], digest(0), 2).unwrap();
    assert_eq!(block.hash, block.calculate_hash());
    assert!(hash_meets_difficulty(&block.hash, 2));
    assert_eq!(block.hash.0[0], 0);
    assert_eq!(block.merkle_root.0, [0u8; 32]);
}

#[test]
fn difficulty_digits_are_hex_nibbles() {
    let mut h = [0xffu8; 32];
    h[0] = 0x0f;
    assert!(hash_meets_difficulty(&arcnova_chain::crypto::Hash(h), 1));
    assert!(!hash_meets_difficulty(&arcnova_chain::crypto::Hash(h), 2));
    assert!(hash_meets_difficulty(&digest(0), 64));
    assert!(!hash_meets_difficulty(&digest(0), 65));
}

#[test]
fn test_core_blockchain_flow() {
    let alice = Wallet::new();
    let state = funded(&alice, &[1_000]);
    let tx = TxBuilder::new(&state).build_payment_tx(&alice, "bob", 100, 0).unwrap();

    let mut chain = Blockchain::new().unwrap();
    assert!(chain.add_block(vec![tx]));
    assert_eq!(chain.chain.len(), 2);
    assert_eq!(chain.chain[1].index, 1);
    assert_eq!(chain.chain[1].prev_hash, chain.chain[0].hash);
    assert!(chain.is_valid(), "The newly mined chain should be valid.");
}

#[test]
fn altered_chain_is_invalid() {
    let alice = Wallet::new();
    let state = funded(&alice, &[1_000]);
    let tx = TxBuilder::new(&state).build_payment_tx(&alice, "bob", 100, 0).unwrap();
    let mut chain = Blockchain::new().unwrap();
    assert!(chain.add_block(vec![tx]));
    assert!(chain.is_valid());

    let mut bad_hash = Blockchain { chain: chain.chain.clone(), difficulty: chain.difficulty };
    bad_hash.chain[1].hash.0[31] ^= 1;
    assert!(!bad_hash.is_valid());

    let mut bad_link = Blockchain { chain: chain.chain.clone(), difficulty: chain.difficulty };
    bad_link.chain[1].prev_hash = digest(7);
    assert!(!bad_link.is_valid());

    let mut bad_difficulty = Blockchain { chain: chain.chain.clone(), difficulty: chain.difficulty };
    bad_difficulty.chain[1].difficulty = 64;
    assert!(!bad_difficulty.is_valid());
}

#[test]
fn block_of_coinbase_fails_signature_rule() {
    let coinbase = Transaction {
        id: digest(1),
        inputs: vec![],
        outputs: vec![TxOutput { value: 50, address: "m".into() }],
    };
    let mut chain = Blockchain::new().unwrap();
    assert!(chain.add_block(vec![coinbase]));
    assert!(!chain.is_valid());
}

#[test]
fn apply_block_applies_in_order() {
    let w = Wallet::new();
    let mut state = funded(&w, &[5_000]);
    let tx1 = TxBuilder::new(&state).build_payment_tx(&w, "bob", 1_000, 0).unwrap();
    let mut after_one = State { utxo_set: UtxoSet::default() };
    after_one.utxo_set.insert((digest(100), 0), TxOutput { value: 5_000, address: w.address() });
    after_one.utxo_set.apply_transaction(&tx1);
    let tx2 = TxBuilder::new(&after_one).build_payment_tx(&w, "carol", 2_000, 0).unwrap();
    let block = Block::seal(1, 0, vec![tx1, tx2], digest(0), 0).unwrap();
    state.utxo_set.apply_block(&block);
    assert_eq!(state.utxo_set.available_balance(&w.address()), 2_000);
    assert_eq!(state.utxo_set.available_balance("bob"), 1_000);
    assert_eq!(state.utxo_set.available_balance("carol"), 2_000);
}

#[test]
fn decode_reads_back_encoded_transaction() {
    let w = Wallet::new();
    let state = funded(&w, &[40_000, 1]);
    let tx = TxBuilder::new(&state).build_payment_tx(&w, "bob", 40_000, 1).unwrap();
    let bytes = tx.encode();
    let back = Transaction::decode(&bytes).unwrap();
    assert_eq!(back.id, tx.id);
    assert_eq!(back.inputs.len(), 2);
    assert_eq!(back.inputs[1].index, tx.inputs[1].index);
    assert_eq!(back.inputs[0].signature, tx.inputs[0].signature);
    assert_eq!(back.inputs[0].public_key, tx.inputs[0].public_key);
    assert_eq!(back.outputs.len(), 1);
    assert_eq!(back.outputs[0].value, 40_000);
    assert_eq!(back.outputs[0].address, "bob");
    assert_eq!(back.encode(), bytes);
    assert!(state.validate_transaction(&back));
}

#[test]
fn decode_rejects_malformed_bytes() {
    let tx = Transaction {
        id: digest(1),
        inputs: vec![],
        outputs: vec![TxOutput { value: 5, address: "é".into() }],
    };
    let bytes = tx.encode();
    assert!(Transaction::decode(&bytes).is_ok());
    assert_eq!(Transaction::decode(&bytes[..bytes.len() - 1]).unwrap_err(), DecodeError::Malformed);
    let mut longer = bytes.clone();
    longer.push(0);
    assert!(Transaction::decode(&longer).is_err());
    let mut bad_text = bytes.clone();
    let last = bad_text.len() - 1;
    bad_text[last] = 0xff;
    assert!(Transaction::decode(&bad_text).is_err());
    assert!(Transaction::decode(&[]).is_err());
}

#[test]
fn block_decode_reads_back_encoded_block() {
    let w = Wallet::new();
    let state = funded(&w, &[9_000]);
    let tx = TxBuilder::new(&state).build_payment_tx(&w, "bob", 1_000, 10).unwrap();
    let block = Block::seal(3, 1_700_000_000_123, vec![tx.clone(), tx], digest(6), 1).unwrap();
    let bytes = block.encode();
    let back = Block::decode(&bytes).unwrap();
    assert_eq!(back.index, 3);
    assert_eq!(back.timestamp, 1_700_000_000_123);
    assert_eq!(back.merkle_root, block.merkle_root);
    assert_eq!(back.prev_hash, digest(6));
    assert_eq!(back.hash, block.hash);
    assert_eq!(back.nonce, block.nonce);
    assert_eq!(back.difficulty, 1);
    assert_eq!(back.transactions.len(), 2);
    assert_eq!(back.calculate_hash(), back.hash);
    assert_eq!(back.encode(), bytes);
    assert!(Block::decode(&bytes[..bytes.len() - 1]).is_err());
    assert!(Block::decode(&bytes[..100]).is_err());
}

#[test]
fn chain_snapshot_reads_back() {
    let alice = Wallet::new();
    let state = funded(&alice, &[1_000]);
    let tx = TxBuilder::new(&state).build_payment_tx(&alice, "bob", 100, 0).unwrap();
    let mut chain = Blockchain::new().unwrap();
    assert!(chain.add_block(vec![tx]));
    let bytes = chain.encode();
    let back = Blockchain::decode(&bytes).unwrap();
    assert_eq!(back.difficulty, 4);
    assert_eq!(back.chain.len(), 2);
    assert_eq!(back.chain[1].hash, chain.chain[1].hash);
    assert!(back.is_valid());
    assert_eq!(back.encode(), bytes);
    assert!(Blockchain::decode(&bytes[..bytes.len() - 3]).is_err());
}

#[test]
fn utxo_snapshot_reads_back_and_rejects_repeated_outpoints() {
    let w = Wallet::new();
    let state = funded(&w, &[10, 20, 30]);
    let bytes = state.utxo_set.encode();
    let back = UtxoSet::decode(&bytes).unwrap();
    assert_eq!(back.available_balance(&w.address()), 60);
    assert_eq!(back.encode(), bytes);

    let mut repeated = UtxoSet::default();
    repeated.insert((digest(1), 0), TxOutput { value: 5, address: "a".into() });
    repeated.utxos.push(((digest(1), 0), TxOutput { value: 6, address: "b".into() }));
    let bad = repeated.encode();
    assert_eq!(UtxoSet::decode(&bad).unwrap_err(), DecodeError::Malformed);
    assert!(UtxoSet::decode(&[0, 0, 0, 0, 0, 0, 0, 0]).unwrap().utxos.is_empty());
}

#[test]
fn empty_wallet_gets_no_utxos_even_when_amount_and_fee_overflow() {
    let w = Wallet::new();
    let state = State { utxo_set: UtxoSet::default() };
    match TxBuilder::new(&state).build_payment_tx(&w, "bob", u64::MAX, 1) {
        Err(TxBuildError::NoUtxos) => {}
        _ => panic!("wrong error variant"),
    }
}

#[test]
fn overflowing_amount_and_fee_is_an_internal_error() {
    let w = Wallet::new();
    let state = funded(&w, &[10]);
    match TxBuilder::new(&state).build_payment_tx(&w, "bob", u64::MAX, 1) {
        Err(TxBuildError::Internal(_)) => {}
        _ => panic!("wrong error variant"),
    }
}

#[test]
fn addresses_are_forty_lowercase_hex_digits() {
    let w = Wallet::new();
    let a = w.address();
    assert_eq!(a.len(), 40);
    assert!(a.chars().all(|c| c.is_ascii_digit() || ('a'..='f').contains(&c)));
}

#[test]
fn genesis_commits_to_no_transactions() {
    let chain = Blockchain::new().unwrap();
    assert_eq!(chain.chain[0].merkle_root.0, [0u8; 32]);
    assert_eq!(chain.chain[0].prev_hash.0, [0u8; 32]);
    assert!(hash_meets_difficulty(&chain.chain[0].hash, 4));
}
