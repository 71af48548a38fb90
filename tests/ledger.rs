use sha3::Digest;
use blockchain_in_rust::block::Block;
use blockchain_in_rust::block_chain::BlockChain;
use blockchain_in_rust::errors::LedgerError;
use blockchain_in_rust::transactions::{Transaction, TXOutput};
use blockchain_in_rust::utxo_set::UTXOSet;
use blockchain_in_rust::wallet::Wallets;
use blockchain_in_rust::SUBSIDY;

fn sha3_256(data: &[u8]) -> Vec<u8> {
    sha3::Sha3_256::digest(data).to_vec()
}

fn balance(bc: &BlockChain, address: &str) -> i64 {
    bc.find_utxo(address).unwrap().iter().map(|o| o.value as i64).sum()
}

fn total_unspent(bc: &BlockChain, addresses: &[&String]) -> i64 {
    addresses.iter().map(|a| balance(bc, a)).sum()
}

fn send(bc: &mut BlockChain, wallets: &Wallets, from: &String, to: &String, amount: i32) {
    let tx = Transaction::new_utxo_transaction(from, to, amount, bc, wallets).unwrap();
    bc.MineBlock(vec![tx]).unwrap();
}

#[test]
fn end_to_end_balances() {
    let mut wallets = Wallets::new();
    let a = wallets.new_wallet().unwrap();
    let b = wallets.new_wallet().unwrap();
    let c = wallets.new_wallet().unwrap();
    let mut bc = BlockChain::new_blockchain(&a).unwrap();
    assert_eq!(balance(&bc, &a), 70);
    assert_eq!(total_unspent(&bc, &[&a, &b, &c]), 70);

    send(&mut bc, &wallets, &a, &b, 66);
    assert_eq!(balance(&bc, &a), 4);
    assert_eq!(balance(&bc, &b), 66);
    assert_eq!(total_unspent(&bc, &[&a, &b, &c]), 70);

    send(&mut bc, &wallets, &b, &c, 50);
    assert_eq!(balance(&bc, &b), 16);
    assert_eq!(balance(&bc, &c), 50);
    assert_eq!(balance(&bc, &a), 4);
    assert_eq!(total_unspent(&bc, &[&a, &b, &c]), 70);
    assert_eq!(bc.blocks().len(), 3);
}

#[test]
fn supply_equals_minted_subsidies() {
    let mut wallets = Wallets::new();
    let a = wallets.new_wallet().unwrap();
    let b = wallets.new_wallet().unwrap();
    let mut bc = BlockChain::new_blockchain(&a).unwrap();
    send(&mut bc, &wallets, &a, &b, 30);
    let reward = Transaction::new_coinbase_transcation(&b, &"Reward".to_string()).unwrap();
    let tx = Transaction::new_utxo_transaction(&b, &a, 10, &bc, &wallets).unwrap();
    bc.MineBlock(vec![reward, tx]).unwrap();
    let coinbases = bc
        .blocks()
        .iter()
        .flat_map(|blk| blk.transactions.iter())
        .filter(|t| t.is_coinbase())
        .count() as i64;
    assert_eq!(coinbases, 2);
    assert_eq!(total_unspent(&bc, &[&a, &b]), coinbases * SUBSIDY as i64);
    assert_eq!(balance(&bc, &a), 70 - 30 + 10);
    assert_eq!(balance(&bc, &b), 30 - 10 + 70);
}

#[test]
fn every_mined_block_validates() {
    let mut wallets = Wallets::new();
    let a = wallets.new_wallet().unwrap();
    let b = wallets.new_wallet().unwrap();
    let mut bc = BlockChain::new_blockchain(&a).unwrap();
    send(&mut bc, &wallets, &a, &b, 5);
    for blk in bc.blocks() {
        let pow = blockchain_in_rust::proof_of_work::ProofOfWork::new(blk);
        assert!(pow.validate());
        assert_eq!(blk.hash.len(), 32);
        assert_eq!(blk.hash[0], 0);
        assert!(blk.hash[1] < 16);
    }
    let blocks = bc.blocks();
    assert!(blocks[0].previous_block_hash.is_empty());
    assert_eq!(blocks[1].previous_block_hash, blocks[0].hash);
    assert_eq!(bc.tip(), blocks[1].hash);
}

#[test]
fn tampered_block_changes_preimage() {
    let mut wallets = Wallets::new();
    let a = wallets.new_wallet().unwrap();
    let bc = BlockChain::new_blockchain(&a).unwrap();
    let mut blk = bc.blocks()[0].copy();
    let before = blockchain_in_rust::proof_of_work::ProofOfWork::new(&blk).prepare_data(blk.nonce);
    blk.transactions[0].outputs[0].value += 1;
    let after = blockchain_in_rust::proof_of_work::ProofOfWork::new(&blk).prepare_data(blk.nonce);
    assert_ne!(before, after);
    let digest = sha3_256(&after);
    assert_ne!(digest, blk.hash);
}

#[test]
fn signed_transfer_verifies_and_detects_tampering() {
    let mut wallets = Wallets::new();
    let a = wallets.new_wallet().unwrap();
    let b = wallets.new_wallet().unwrap();
    let bc = BlockChain::new_blockchain(&a).unwrap();
    let tx = Transaction::new_utxo_transaction(&a, &b, 20, &bc, &wallets).unwrap();
    assert_eq!(bc.verify_transaction(&tx), Ok(true));
    let mut forged = tx.clone();
    forged.outputs[0].value = 60;
    assert_eq!(bc.verify_transaction(&forged), Ok(false));
    let mut stolen = tx.clone();
    stolen.outputs[1].pub_key_hash = stolen.outputs[0].pub_key_hash.clone();
    assert_eq!(bc.verify_transaction(&stolen), Ok(false));
}

#[test]
fn reordering_transactions_changes_block_hash() {
    let mut wallets = Wallets::new();
    let a = wallets.new_wallet().unwrap();
    let b = wallets.new_wallet().unwrap();
    let t1 = Transaction::new_coinbase_transcation(&a, &"one".to_string()).unwrap();
    let t2 = Transaction::new_coinbase_transcation(&b, &"two".to_string()).unwrap();
    let prev = vec![7u8; 32];
    let first = Block::new_at(vec![t1.clone(), t2.clone()], prev.clone(), 1_700_000_000).unwrap();
    let second = Block::new_at(vec![t2, t1], prev, 1_700_000_000).unwrap();
    assert_ne!(first.hash, second.hash);
}

#[test]
fn utxo_index_tracks_chain() {
    let mut wallets = Wallets::new();
    let a = wallets.new_wallet().unwrap();
    let b = wallets.new_wallet().unwrap();
    let bc = BlockChain::new_blockchain(&a).unwrap();
    let genesis_id = bc.blocks()[0].transactions[0].id.clone();
    let mut set = UTXOSet::new(bc);
    assert_eq!(set.count_transactions(), 1);
    let tx = Transaction::new_utxo_transaction(&a, &b, 25, &set.blockchain, &wallets).unwrap();
    let tx_id = tx.id.clone();
    set.blockchain.MineBlock(vec![tx]).unwrap();
    let newest = set.blockchain.blocks().last().unwrap().copy();
    set.update(&newest);
    assert_eq!(set.count_transactions(), 1);
    assert_eq!(set.index()[0].txid, tx_id);

    let a_hash = blockchain_in_rust::functions::address_to_pubkeyhash(&a).unwrap();
    let (acc, outs) = set.find_spendable_outputs(&a_hash, 100);
    assert_eq!(acc, 45);
    assert_eq!(outs.len(), 1);
    assert_eq!(outs[0].txid, tx_id);
    assert_eq!(outs[0].index, 1);
    assert!(outs.iter().all(|p| p.txid != genesis_id));

    let b_hash = blockchain_in_rust::functions::address_to_pubkeyhash(&b).unwrap();
    let (acc_b, outs_b) = set.find_spendable_outputs(&b_hash, 10);
    assert_eq!(acc_b, 25);
    assert_eq!(outs_b[0].index, 0);

    let chain_view = set.blockchain.find_spendable_outputs(&a_hash, 100);
    assert_eq!(chain_view.0, acc);
}

#[test]
fn spent_output_never_offered_again() {
    let mut wallets = Wallets::new();
    let a = wallets.new_wallet().unwrap();
    let b = wallets.new_wallet().unwrap();
    let bc = BlockChain::new_blockchain(&a).unwrap();
    let mut set = UTXOSet::new(bc);
    let tx = Transaction::new_utxo_transaction(&a, &b, 70, &set.blockchain, &wallets).unwrap();
    let spent_id = tx.inputs[0].txid.clone();
    let spent_index = tx.inputs[0].vout;
    set.blockchain.MineBlock(vec![tx]).unwrap();
    let newest = set.blockchain.blocks().last().unwrap().copy();
    set.update(&newest);
    let a_hash = blockchain_in_rust::functions::address_to_pubkeyhash(&a).unwrap();
    let (acc, outs) = set.find_spendable_outputs(&a_hash, 70);
    assert_eq!(acc, 0);
    assert!(outs.iter().all(|p| !(p.txid == spent_id && p.index == spent_index)));
    assert_eq!(
        Transaction::new_utxo_transaction(&a, &b, 1, &set.blockchain, &wallets).err(),
        Some(LedgerError::InsufficientFunds)
    );
}

#[test]
fn reindex_twice_gives_identical_bytes() {
    let mut wallets = Wallets::new();
    let a = wallets.new_wallet().unwrap();
    let b = wallets.new_wallet().unwrap();
    let mut bc = BlockChain::new_blockchain(&a).unwrap();
    send(&mut bc, &wallets, &a, &b, 12);
    let mut set = UTXOSet::new(bc);
    let first: Vec<(Vec<u8>, Vec<u8>)> = set.index().iter().map(|e| (e.txid.clone(), e.serialize())).collect();
    set.reindex();
    let second: Vec<(Vec<u8>, Vec<u8>)> = set.index().iter().map(|e| (e.txid.clone(), e.serialize())).collect();
    assert_eq!(first, second);
    assert_eq!(set.count_transactions(), 1);
    assert_eq!(set.index()[0].outputs.len(), 2);
}

#[test]
fn mining_rejects_invalid_transactions() {
    let mut wallets = Wallets::new();
    let a = wallets.new_wallet().unwrap();
    let b = wallets.new_wallet().unwrap();
    let mut bc = BlockChain::new_blockchain(&a).unwrap();
    let mut tx = Transaction::new_utxo_transaction(&a, &b, 3, &bc, &wallets).unwrap();
    tx.outputs[0].value = 70;
    assert_eq!(bc.MineBlock(vec![tx]), Err(LedgerError::InvalidTransaction));
    assert_eq!(bc.blocks().len(), 1);

    let mut orphan = Transaction::new_utxo_transaction(&a, &b, 3, &bc, &wallets).unwrap();
    orphan.inputs[0].txid = vec![1, 2, 3];
    let orphan_copy = orphan.clone();
    assert_eq!(bc.MineBlock(vec![orphan]), Err(LedgerError::InvalidTransaction));
    assert_eq!(bc.verify_transaction(&orphan_copy), Err(LedgerError::PrevTransactionMissing));

    let mut out_of_range = Transaction::new_utxo_transaction(&a, &b, 3, &bc, &wallets).unwrap();
    out_of_range.inputs[0].vout = 9;
    assert_eq!(bc.verify_transaction(&out_of_range), Err(LedgerError::OutputIndexOutOfRange));
    assert_eq!(bc.MineBlock(vec![out_of_range]), Err(LedgerError::InvalidTransaction));
    assert_eq!(bc.blocks().len(), 1);
}

#[test]
fn transfer_errors() {
    let mut wallets = Wallets::new();
    let a = wallets.new_wallet().unwrap();
    let b = wallets.new_wallet().unwrap();
    let bc = BlockChain::new_blockchain(&a).unwrap();
    assert_eq!(
        Transaction::new_utxo_transaction(&a, &b, 0, &bc, &wallets).err(),
        Some(LedgerError::InvalidAmount)
    );
    assert_eq!(
        Transaction::new_utxo_transaction(&a, &b, 71, &bc, &wallets).err(),
        Some(LedgerError::InsufficientFunds)
    );
    assert_eq!(
        Transaction::new_utxo_transaction(&b, &a, 1, &bc, &wallets).err(),
        Some(LedgerError::InsufficientFunds)
    );
    let stranger = "not-a-wallet".to_string();
    assert_eq!(
        Transaction::new_utxo_transaction(&stranger, &a, 1, &bc, &wallets).err(),
        Some(LedgerError::WalletNotFound)
    );
    assert_eq!(
        Transaction::new_utxo_transaction(&a, &"0OIl".to_string(), 1, &bc, &wallets).err(),
        Some(LedgerError::InvalidBase58)
    );
}

#[test]
fn exact_change_has_no_change_output() {
    let mut wallets = Wallets::new();
    let a = wallets.new_wallet().unwrap();
    let b = wallets.new_wallet().unwrap();
    let bc = BlockChain::new_blockchain(&a).unwrap();
    let tx = Transaction::new_utxo_transaction(&a, &b, 70, &bc, &wallets).unwrap();
    assert_eq!(tx.outputs.len(), 1);
    assert_eq!(tx.outputs[0].value, 70);
    assert_eq!(tx.inputs.len(), 1);
    let tx2 = Transaction::new_utxo_transaction(&a, &b, 69, &bc, &wallets).unwrap();
    assert_eq!(tx2.outputs.len(), 2);
    assert_eq!(tx2.outputs[1].value, 1);
}

#[test]
fn find_transaction_and_unspent_transactions() {
    let mut wallets = Wallets::new();
    let a = wallets.new_wallet().unwrap();
    let b = wallets.new_wallet().unwrap();
    let mut bc = BlockChain::new_blockchain(&a).unwrap();
    let genesis_tx = bc.blocks()[0].transactions[0].clone();
    assert_eq!(bc.find_transaction(&genesis_tx.id).unwrap().id, genesis_tx.id);
    assert_eq!(bc.find_transaction(&vec![9, 9]).err(), Some(LedgerError::TransactionNotFound));
    let a_hash = blockchain_in_rust::functions::address_to_pubkeyhash(&a).unwrap();
    assert_eq!(bc.find_unspent_transactions(&a_hash).len(), 1);
    send(&mut bc, &wallets, &a, &b, 70);
    assert_eq!(bc.find_unspent_transactions(&a_hash).len(), 0);
    let b_hash = blockchain_in_rust::functions::address_to_pubkeyhash(&b).unwrap();
    assert_eq!(bc.find_unspent_transactions(&b_hash).len(), 1);
    assert_eq!(bc.all_transactions().len(), 2);
}

#[test]
fn coinbase_shape_and_verification() {
    let mut wallets = Wallets::new();
    let a = wallets.new_wallet().unwrap();
    let cb = Transaction::new_coinbase_transcation(&a, &"Genesis Block".to_string()).unwrap();
    assert!(cb.is_coinbase());
    assert_eq!(cb.inputs[0].pub_key, b"Genesis Block".to_vec());
    assert_eq!(cb.inputs[0].vout, usize::MAX - 1);
    assert_eq!(cb.outputs[0].value, SUBSIDY);
    assert_eq!(cb.id.len(), 32);
    let mut unnamed = cb.clone();
    unnamed.id = Vec::new();
    assert_eq!(unnamed.set_id(), cb.id);
    assert_eq!(cb.verify(&Vec::new()), Ok(true));
    assert_eq!(
        Transaction::new_coinbase_transcation(&"1".to_string(), &"x".to_string()).err(),
        Some(LedgerError::AddressTooShort)
    );
}

#[test]
fn output_locking() {
    let mut wallets = Wallets::new();
    let a = wallets.new_wallet().unwrap();
    let out = TXOutput::newTXOutput(5, &a).unwrap();
    let h = blockchain_in_rust::functions::address_to_pubkeyhash(&a).unwrap();
    assert!(out.is_locked_with_key(&h));
    assert!(!out.is_locked_with_key(&vec![0u8; 20]));
    let mut other = out.clone();
    assert_eq!(other.lock(&"0OIl".to_string()), Err(LedgerError::InvalidBase58));
    assert_eq!(other.pub_key_hash, out.pub_key_hash);
    let w = wallets.get_wallet(&a).unwrap();
    let input = blockchain_in_rust::transactions::TXInput {
        txid: vec![],
        vout: 0,
        signature: vec![],
        pub_key: w.public_key.clone(),
    };
    assert!(input.uses_key(&h));
    assert!(!input.uses_key(&vec![1u8; 20]));
}

#[test]
fn iterator_walks_back_to_genesis() {
    let mut wallets = Wallets::new();
    let a = wallets.new_wallet().unwrap();
    let b = wallets.new_wallet().unwrap();
    let mut bc = BlockChain::new_blockchain(&a).unwrap();
    send(&mut bc, &wallets, &a, &b, 1);
    let mut it = bc.iterator();
    let newest = it.next().unwrap();
    assert_eq!(newest.hash, bc.tip());
    let genesis = it.next().unwrap();
    assert!(genesis.previous_block_hash.is_empty());
    assert_eq!(newest.previous_block_hash, genesis.hash);
    assert!(it.next().is_none());
    assert!(it.current_hash.is_empty());
}

#[test]
fn loading_checks_links_and_seals() {
    let mut wallets = Wallets::new();
    let a = wallets.new_wallet().unwrap();
    let b = wallets.new_wallet().unwrap();
    let mut bc = BlockChain::new_blockchain(&a).unwrap();
    send(&mut bc, &wallets, &a, &b, 2);
    let blocks: Vec<Block> = bc.blocks().iter().map(|x| x.copy()).collect();
    let reloaded = BlockChain::from_blocks(blocks.iter().map(|x| x.copy()).collect()).unwrap();
    assert_eq!(reloaded.tip(), bc.tip());
    let mut reversed: Vec<Block> = blocks.iter().map(|x| x.copy()).collect();
    reversed.reverse();
    assert!(BlockChain::from_blocks(reversed).is_none());
    let mut tampered: Vec<Block> = blocks.iter().map(|x| x.copy()).collect();
    tampered[1].nonce = tampered[1].nonce.wrapping_add(1);
    assert!(BlockChain::from_blocks(tampered).is_none());
    assert!(BlockChain::from_blocks(Vec::new()).is_none());
}

#[test]
fn mined_block_is_stamped_with_the_clock() {
    let mut wallets = Wallets::new();
    let a = wallets.new_wallet().unwrap();
    let cb = Transaction::new_coinbase_transcation(&a, &"t".to_string()).unwrap();
    let blk = Block::new(vec![cb], vec![1u8; 32]).unwrap();
    assert!(blk.timestamp > 1_600_000_000);
    assert_eq!(blk.previous_block_hash, vec![1u8; 32]);
    let pow = blockchain_in_rust::proof_of_work::ProofOfWork::new(&blk);
    assert!(pow.validate());
    assert_eq!(sha3_256(&pow.prepare_data(blk.nonce)), blk.hash);
}

#[test]
fn every_transfer_input_carries_a_valid_signature() {
    let mut wallets = Wallets::new();
    let a = wallets.new_wallet().unwrap();
    let b = wallets.new_wallet().unwrap();
    let mut bc = BlockChain::new_blockchain(&a).unwrap();
    send(&mut bc, &wallets, &a, &b, 30);
    let tx = Transaction::new_utxo_transaction(&b, &a, 30, &bc, &wallets).unwrap();
    assert!(!tx.inputs.is_empty());
    assert!(tx.inputs.iter().all(|i| !i.signature.is_empty()));
    let w = wallets.get_wallet(&b).unwrap();
    assert!(tx.inputs.iter().all(|i| i.pub_key == w.public_key));
    let prev_txs = bc.all_transactions();
    assert_eq!(tx.verify(&prev_txs), Ok(true));
    let mut unsigned = tx.clone();
    for input in unsigned.inputs.iter_mut() {
        input.signature = Vec::new();
    }
    assert_eq!(unsigned.verify(&prev_txs), Ok(false));
    assert_eq!(unsigned.sign(&w.pkcs8, &prev_txs), Ok(()));
    assert_eq!(unsigned.verify(&prev_txs), Ok(true));
}

#[test]
fn genesis_holds_one_coinbase_for_the_address() {
    let mut wallets = Wallets::new();
    let a = wallets.new_wallet().unwrap();
    let bc = BlockChain::new_blockchain(&a).unwrap();
    let genesis = &bc.blocks()[0];
    assert!(genesis.previous_block_hash.is_empty());
    assert_eq!(genesis.transactions.len(), 1);
    assert!(genesis.transactions[0].is_coinbase());
    assert_eq!(genesis.transactions[0].inputs[0].pub_key, b"Genesis Block".to_vec());
    assert_eq!(
        BlockChain::new_blockchain(&"0OIl".to_string()).err(),
        Some(LedgerError::InvalidBase58)
    );
}

#[test]
fn errors_come_in_order() {
    let mut wallets = Wallets::new();
    let a = wallets.new_wallet().unwrap();
    let b = wallets.new_wallet().unwrap();
    let bc = BlockChain::new_blockchain(&a).unwrap();
    let stranger = "not-a-wallet".to_string();
    let bad = "0OIl".to_string();
    assert_eq!(
        Transaction::new_utxo_transaction(&stranger, &bad, 0, &bc, &wallets).err(),
        Some(LedgerError::WalletNotFound)
    );
    assert_eq!(
        Transaction::new_utxo_transaction(&a, &bad, 0, &bc, &wallets).err(),
        Some(LedgerError::InvalidAmount)
    );
    assert_eq!(
        Transaction::new_utxo_transaction(&b, &bad, 5, &bc, &wallets).err(),
        Some(LedgerError::InsufficientFunds)
    );
    let mut tx = Transaction::new_utxo_transaction(&a, &b, 5, &bc, &wallets).unwrap();
    let mut second = tx.inputs[0].clone();
    tx.inputs[0].vout = 9;
    second.txid = vec![4, 4, 4];
    tx.inputs.push(second);
    assert_eq!(bc.verify_transaction(&tx), Err(LedgerError::PrevTransactionMissing));
}
