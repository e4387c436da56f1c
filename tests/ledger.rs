use ledger_chain::bcdb::BlockchainDb;
use ledger_chain::block::Block;
use ledger_chain::blockchain::{Blockchain, BlockchainIterator};
use ledger_chain::error::LedgerError;
use ledger_chain::proofofwork::ProofOfWork;
use ledger_chain::transaction::{new_coinbase_tx, new_utxo_transaction, Transaction, SUBSIDY};
use ledger_chain::utils::{compute_sha256, hex_string, string_hex};
use num_bigint::BigUint;

fn open_alice() -> Blockchain {
    Blockchain::new(BlockchainDb::new(), "Alice", 1_700_000_000).unwrap()
}

#[test]
fn test() {
    let mut target = BigUint::from(1u32);
    target = target << (256 - 3);
    assert_eq!(target.bits(), 254);
}

#[test]
fn new_ledger_pays_subsidy_to_genesis_address() {
    let bc = open_alice();
    assert_eq!(SUBSIDY, 10);
    assert_eq!(bc.get_balance("Alice").unwrap(), 10);
    assert_eq!(bc.get_balance("Bob").unwrap(), 0);
}

#[test]
fn transfer_scenario_alice_bob() {
    let mut bc = open_alice();
    bc.transfer("Alice", "Bob", 4, 1_700_000_010).unwrap();
    assert_eq!(bc.get_balance("Alice").unwrap(), 6);
    assert_eq!(bc.get_balance("Bob").unwrap(), 4);
    assert_eq!(
        bc.transfer("Alice", "Bob", 100, 1_700_000_020),
        Err(LedgerError::InsufficientFunds)
    );
    assert_eq!(bc.get_balance("Alice").unwrap(), 6);
    assert_eq!(bc.get_balance("Bob").unwrap(), 4);
    assert_eq!(bc.blocks().unwrap().len(), 2);
}

#[test]
fn transfers_conserve_value() {
    let mut bc = open_alice();
    bc.transfer("Alice", "Bob", 4, 1).unwrap();
    bc.transfer("Bob", "Carol", 3, 2).unwrap();
    bc.transfer("Alice", "Carol", 6, 3).unwrap();
    let a = bc.get_balance("Alice").unwrap();
    let b = bc.get_balance("Bob").unwrap();
    let c = bc.get_balance("Carol").unwrap();
    assert_eq!((a, b, c), (0, 1, 9));
    assert_eq!(a + b + c, SUBSIDY as i128);
}

#[test]
fn transfer_of_exact_balance_has_no_change() {
    let mut bc = open_alice();
    bc.transfer("Alice", "Bob", 10, 5).unwrap();
    let blocks = bc.blocks().unwrap();
    let tx = &blocks[0].transaction[0];
    assert_eq!(tx.vout.len(), 1);
    assert_eq!(tx.vout[0].value, 10);
    assert_eq!(tx.vout[0].script_pub_key, "Bob");
    assert_eq!(tx.vin.len(), 1);
    assert_eq!(tx.vin[0].vout, 0);
    assert_eq!(tx.vin[0].script_sig, "Alice");
    assert_eq!(tx.vin[0].txid, blocks[1].transaction[0].id);
    assert_eq!(bc.get_balance("Alice").unwrap(), 0);
}

#[test]
fn spendable_outputs_first_fit() {
    let bc = open_alice();
    let (acc, sel) = bc.find_spendable_outputs("Alice", 4).unwrap();
    assert_eq!(acc, 10);
    let genesis = &bc.blocks().unwrap()[0];
    assert_eq!(sel, vec![(hex_string(&genesis.transaction[0].id), 0)]);
    let (acc0, sel0) = bc.find_spendable_outputs("Alice", 0).unwrap();
    assert_eq!((acc0, sel0.len()), (0, 0));
    let (none, empty) = bc.find_spendable_outputs("Bob", 1).unwrap();
    assert_eq!((none, empty.len()), (0, 0));
}

#[test]
fn transfer_transaction_has_change_output() {
    let bc = open_alice();
    let tx = new_utxo_transaction("Alice", "Bob", 4, &bc).unwrap();
    assert_eq!(tx.vout.len(), 2);
    assert_eq!((tx.vout[0].value, tx.vout[0].script_pub_key.as_str()), (4, "Bob"));
    assert_eq!((tx.vout[1].value, tx.vout[1].script_pub_key.as_str()), (6, "Alice"));
    assert_eq!(tx.id.len(), 32);
    assert!(!tx.is_coinbase());
    assert!(new_utxo_transaction("Bob", "Alice", 1, &bc).is_err());
}

#[test]
fn utxos_of_address() {
    let mut bc = open_alice();
    bc.transfer("Alice", "Bob", 4, 9).unwrap();
    let alice: Vec<i32> = bc.find_utxo("Alice").unwrap().iter().map(|o| o.value).collect();
    let bob: Vec<i32> = bc.find_utxo("Bob").unwrap().iter().map(|o| o.value).collect();
    assert_eq!(alice, vec![6]);
    assert_eq!(bob, vec![4]);
    assert_eq!(bc.find_unspend_transaction("Alice").unwrap().len(), 1);
    assert!(bc.find_utxo("Nobody").unwrap().is_empty());
}

#[test]
fn open_without_address_is_not_initialized() {
    let r = Blockchain::new(BlockchainDb::new(), "", 0);
    assert_eq!(r.err(), Some(LedgerError::NotInitialized));
}

#[test]
fn dangling_tip_is_corrupt() {
    let mut db = BlockchainDb::new();
    db.write_db(b"l", &[7u8; 32]);
    let r = Blockchain::new(db, "Alice", 0);
    assert_eq!(r.err(), Some(LedgerError::CorruptChain));
}

#[test]
fn garbage_entry_is_corrupt() {
    let mut db = BlockchainDb::new();
    db.write_db(&[1u8; 32], &[1, 2, 3]);
    let r = Blockchain::new(db, "Alice", 0);
    assert_eq!(r.err(), Some(LedgerError::CorruptChain));
}

#[test]
fn reopen_keeps_chain_and_ignores_address() {
    let mut bc = open_alice();
    bc.transfer("Alice", "Bob", 3, 4).unwrap();
    let mut copy = BlockchainDb::new();
    let blocks = bc.blocks().unwrap();
    for b in &blocks {
        copy.write_db(&b.hash, &b.serialize());
    }
    copy.write_db(b"l", &blocks[0].hash);
    let again = Blockchain::new(copy, "Zed", 99).unwrap();
    assert_eq!(again.get_balance("Bob").unwrap(), 3);
    assert_eq!(again.get_balance("Zed").unwrap(), 0);
    assert_eq!(again.blocks().unwrap().len(), 2);
}

#[test]
fn chain_walk_ends_at_genesis_newest_first() {
    let mut bc = open_alice();
    bc.transfer("Alice", "Bob", 1, 10).unwrap();
    bc.transfer("Alice", "Bob", 1, 20).unwrap();
    let blocks = bc.blocks().unwrap();
    assert_eq!(blocks.len(), 3);
    assert_eq!(blocks[0].time_stamp, 20);
    assert_eq!(blocks[2].time_stamp, 1_700_000_000);
    assert!(blocks[2].prev_block_hash.is_empty());
    for i in 0..2 {
        assert_eq!(blocks[i].prev_block_hash, blocks[i + 1].hash);
        assert!(!blocks[i].prev_block_hash.is_empty());
    }
    let mut it = bc.iter();
    let mut n = 0;
    while let Some(b) = it.next().unwrap() {
        assert_eq!(b.hash, blocks[n].hash);
        n += 1;
    }
    assert_eq!(n, 3);
    assert!(it.next().unwrap().is_none());
}

#[test]
fn mined_hashes_are_below_target() {
    let mut bc = open_alice();
    for t in 0..5 {
        bc.transfer("Alice", "Alice", 1, t).unwrap();
    }
    for b in bc.blocks().unwrap() {
        assert_eq!(b.hash.len(), 32);
        assert!(b.hash[0] < 0x20);
        let n = BigUint::from_bytes_be(&b.hash);
        assert!(n < (BigUint::from(1u32) << 253));
        assert!(ProofOfWork::new(&b).validate());
    }
}

#[test]
fn mining_takes_first_valid_nonce() {
    let b = Block::new(vec![new_coinbase_tx("Ann", "memo")], vec![9u8; 32], 42).unwrap();
    assert_eq!(b.prev_block_hash, vec![9u8; 32]);
    assert_eq!(b.time_stamp, 42);
    let mut probe = b.clone();
    for n in 0..b.nonce {
        probe.nonce = n;
        assert!(!ProofOfWork::new(&probe).validate());
    }
    probe.nonce = b.nonce;
    assert!(ProofOfWork::new(&probe).validate());
}

#[test]
fn validate_rejects_a_bad_nonce() {
    let b = Block::new_genesis_block(vec![new_coinbase_tx("Ann", "")], 7).unwrap();
    assert!(b.prev_block_hash.is_empty());
    let mut bad = b.clone();
    bad.nonce = b.nonce + 1;
    while ProofOfWork::new(&bad).validate() {
        bad.nonce += 1;
    }
    assert!(!ProofOfWork::new(&bad).validate());
}

#[test]
fn block_round_trip() {
    let mut bc = open_alice();
    bc.transfer("Alice", "Bob", 4, 3).unwrap();
    for b in bc.blocks().unwrap() {
        let bytes = b.serialize();
        let back = Block::deserialize(&bytes).unwrap();
        assert_eq!(back.time_stamp, b.time_stamp);
        assert_eq!(back.prev_block_hash, b.prev_block_hash);
        assert_eq!(back.hash, b.hash);
        assert_eq!(back.nonce, b.nonce);
        assert_eq!(back.transaction.len(), b.transaction.len());
        assert_eq!(back.serialize(), bytes);
    }
}

#[test]
fn deserialize_rejects_malformed_bytes() {
    assert!(Block::deserialize(&vec![]).is_none());
    assert!(Block::deserialize(&vec![1, 2, 3, 4, 5, 6, 7, 8, 255, 255, 255, 255, 255, 255, 255, 255]).is_none());
    let b = Block::new_genesis_block(vec![new_coinbase_tx("Ann", "x")], -5).unwrap();
    let bytes = b.serialize();
    assert!(Block::deserialize(&bytes[..bytes.len() - 1].to_vec()).is_none());
    let back = Block::deserialize(&bytes).unwrap();
    assert_eq!(back.time_stamp, -5);
}

#[test]
fn encoding_matches_bincode_layout() {
    let tx = new_coinbase_tx("Bob", "hello");
    let mut mine = Vec::new();
    tx.encode(&mut mine);
    let input = (tx.vin[0].txid.clone(), tx.vin[0].vout, tx.vin[0].script_sig.clone());
    let output = (tx.vout[0].value, tx.vout[0].script_pub_key.clone());
    let theirs = bincode::serialize(&(tx.id.clone(), vec![input], vec![output])).unwrap();
    assert_eq!(mine, theirs);
    let b = Block::new_genesis_block(vec![tx.clone()], 12345).unwrap();
    let input = (tx.vin[0].txid.clone(), tx.vin[0].vout, tx.vin[0].script_sig.clone());
    let output = (tx.vout[0].value, tx.vout[0].script_pub_key.clone());
    let block = (
        b.time_stamp,
        vec![(tx.id.clone(), vec![input], vec![output])],
        b.prev_block_hash.clone(),
        b.hash.clone(),
        b.nonce,
    );
    assert_eq!(b.serialize(), bincode::serialize(&block).unwrap());
}

#[test]
fn coinbase_transaction_shape() {
    let tx = new_coinbase_tx("Bob", "");
    assert!(tx.is_coinbase());
    assert_eq!(tx.vin[0].script_sig, "Reward to Bob");
    assert_eq!(tx.vin[0].vout, -1);
    assert!(tx.vin[0].txid.is_empty());
    assert_eq!(tx.vout[0].value, 10);
    assert!(tx.vout[0].can_be_unlocked_with("Bob"));
    assert!(!tx.vout[0].can_be_unlocked_with("bob"));
    assert!(tx.vin[0].can_unlock_output_with("Reward to Bob"));
    let memo = new_coinbase_tx("Bob", "hi");
    assert_eq!(memo.vin[0].script_sig, "hi");
    let mut plain = tx.clone();
    plain.id = Vec::new();
    let mut bytes = Vec::new();
    plain.encode(&mut bytes);
    assert_eq!(tx.id, compute_sha256(&bytes));
    assert_ne!(tx.id, memo.id);
}

#[test]
fn is_coinbase_needs_the_sentinel_input() {
    let mut tx: Transaction = new_coinbase_tx("Bob", "");
    tx.vin[0].vout = 0;
    assert!(!tx.is_coinbase());
    let mut two = new_coinbase_tx("Bob", "");
    let extra = two.vin[0].clone();
    two.vin.push(extra);
    assert!(!two.is_coinbase());
}

#[test]
fn transactions_digest_is_sha256_of_ids() {
    let a = new_coinbase_tx("A", "");
    let b = new_coinbase_tx("B", "");
    let block = Block::new(vec![a.clone(), b.clone()], vec![1u8; 32], 0).unwrap();
    let mut ids = a.id.clone();
    ids.extend_from_slice(&b.id);
    assert_eq!(block.hash_transaction(), compute_sha256(&ids));
    let empty = Block::new(vec![], vec![1u8; 32], 0).unwrap();
    assert_eq!(empty.hash_transaction(), compute_sha256(&[]));
}

#[test]
fn sha256_known_value() {
    assert_eq!(
        hex_string(&compute_sha256(b"abc")),
        "ba7816bf8f01cfea414140de5dae2223b00361a396177a9cb410ff61f20015ad"
    );
}

#[test]
fn hex_round_trip_and_rejects() {
    assert_eq!(hex_string(&vec![1, 2, 255]), "0102ff");
    assert_eq!(string_hex(&"0102FF".to_string()), vec![1, 2, 255]);
    assert_eq!(string_hex(&"0102ff".to_string()), vec![1, 2, 255]);
    assert!(string_hex(&"zz".to_string()).is_empty());
    assert!(string_hex(&"123".to_string()).is_empty());
    assert_eq!(hex_string(&vec![]), "");
}

#[test]
fn store_read_and_overwrite() {
    let mut db = BlockchainDb::new();
    assert_eq!(db.read_db(b"k"), None);
    db.write_db(b"k", b"one");
    db.write_db(b"j", b"two");
    db.write_db(b"k", b"three");
    assert_eq!(db.read_db(b"k"), Some(b"three".to_vec()));
    assert_eq!(db.read_db(b"j"), Some(b"two".to_vec()));
    assert_eq!(db.len(), 2);
}

#[test]
fn spent_sibling_output_is_not_counted() {
    let mut bc = open_alice();
    bc.transfer("Alice", "Alice", 1, 1).unwrap();
    let values: Vec<i32> = bc.find_utxo("Alice").unwrap().iter().map(|o| o.value).collect();
    assert_eq!(values, vec![1, 9]);
    assert_eq!(bc.get_balance("Alice").unwrap(), 10);
    bc.transfer("Alice", "Bob", 1, 2).unwrap();
    let values: Vec<i32> = bc.find_utxo("Alice").unwrap().iter().map(|o| o.value).collect();
    assert_eq!(values, vec![9]);
    assert_eq!(bc.get_balance("Alice").unwrap(), 9);
    assert_eq!(bc.get_balance("Bob").unwrap(), 1);
    let self_tx = bc.blocks().unwrap()[1].transaction[0].clone();
    let (acc, sel) = bc.find_spendable_outputs("Alice", 5).unwrap();
    assert_eq!(acc, 9);
    assert_eq!(sel, vec![(hex_string(&self_tx.id), 1)]);
    bc.transfer("Alice", "Carol", 5, 3).unwrap();
    assert_eq!(bc.get_balance("Alice").unwrap(), 4);
    assert_eq!(bc.get_balance("Carol").unwrap(), 5);
    assert_eq!(bc.get_balance("Bob").unwrap(), 1);
}

#[test]
fn sender_balance_falls_by_amount() {
    let mut bc = open_alice();
    bc.transfer("Alice", "Bob", 3, 1).unwrap();
    bc.transfer("Bob", "Alice", 2, 2).unwrap();
    let a0 = bc.get_balance("Alice").unwrap();
    let b0 = bc.get_balance("Bob").unwrap();
    bc.transfer("Alice", "Bob", 8, 3).unwrap();
    assert_eq!(bc.get_balance("Alice").unwrap(), a0 - 8);
    assert_eq!(bc.get_balance("Bob").unwrap(), b0 + 8);
    assert_eq!(bc.get_balance("Alice").unwrap() + bc.get_balance("Bob").unwrap(), 10);
}

#[test]
fn tip_missing_target_is_invalid_proof_of_work() {
    let mut b = Block::new_genesis_block(vec![new_coinbase_tx("Ann", "")], 3).unwrap();
    b.nonce += 1;
    while ProofOfWork::new(&b).validate() {
        b.nonce += 1;
    }
    let mut db = BlockchainDb::new();
    db.write_db(&b.hash, &b.serialize());
    db.write_db(b"l", &b.hash);
    let r = Blockchain::new(db, "Ann", 4);
    assert_eq!(r.err(), Some(LedgerError::InvalidProofOfWork));
}

#[test]
fn iterator_reports_missing_or_undecodable_block() {
    let mut db = BlockchainDb::new();
    db.write_db(&[5u8; 32], &[0, 1, 2]);
    let mut missing = BlockchainIterator::new(&db, &[9u8; 32]);
    assert_eq!(missing.next().err(), Some(LedgerError::CorruptChain));
    let mut garbled = BlockchainIterator::new(&db, &[5u8; 32]);
    assert_eq!(garbled.next().err(), Some(LedgerError::CorruptChain));
}
