use rust_base58::{FromBase58, ToBase58};
use sha3::Digest;
use blockchain_in_rust::encoding::{push_bytes, push_i32, push_u32, push_u64};
use blockchain_in_rust::errors::LedgerError;
use blockchain_in_rust::functions::{address_to_pubkeyhash, checksum, publicKey_to_hash, validate_address};
use blockchain_in_rust::merkle_tree::{MerkleNode, MerkleTree};
use blockchain_in_rust::proof_of_work::{hash_meets_target, int_to_hex};
use blockchain_in_rust::transactions::{TXInput, TXOutput, Transaction};
use blockchain_in_rust::wallet::{Wallet, Wallets};

fn sha3_256(data: &[u8]) -> Vec<u8> {
    sha3::Sha3_256::digest(data).to_vec()
}

fn ripemd160(data: &[u8]) -> Vec<u8> {
    ripemd::Ripemd160::digest(data).to_vec()
}

fn to_base58(data: &[u8]) -> String {
    data.to_base58()
}

fn from_base58(text: &str) -> Option<Vec<u8>> {
    text.from_base58().ok()
}

fn h(data: &[u8]) -> Vec<u8> {
    sha3_256(data)
}

fn join(a: &[u8], b: &[u8]) -> Vec<u8> {
    let mut v = a.to_vec();
    v.extend_from_slice(b);
    v
}

#[test]
fn hex_text_of_integers() {
    assert_eq!(int_to_hex(0), b"0".to_vec());
    assert_eq!(int_to_hex(9), b"9".to_vec());
    assert_eq!(int_to_hex(10), b"a".to_vec());
    assert_eq!(int_to_hex(255), b"ff".to_vec());
    assert_eq!(int_to_hex(4096), b"1000".to_vec());
    assert_eq!(int_to_hex(u64::MAX), b"ffffffffffffffff".to_vec());
}

#[test]
fn fixed_width_encodings() {
    let mut out = Vec::new();
    push_u64(&mut out, 0x0102030405060708);
    assert_eq!(out, vec![8, 7, 6, 5, 4, 3, 2, 1]);
    let mut out = Vec::new();
    push_u32(&mut out, 0x0a0b0c0d);
    assert_eq!(out, vec![0x0d, 0x0c, 0x0b, 0x0a]);
    let mut out = Vec::new();
    push_i32(&mut out, -2);
    assert_eq!(out, vec![0xfe, 0xff, 0xff, 0xff]);
    let mut out = vec![9];
    push_bytes(&mut out, &[1, 2]);
    assert_eq!(out, vec![9, 2, 0, 0, 0, 0, 0, 0, 0, 1, 2]);
}

#[test]
fn transaction_encoding_bytes() {
    let tx = Transaction {
        id: vec![0xaa],
        inputs: vec![TXInput { txid: vec![1], vout: 2, signature: vec![], pub_key: vec![3] }],
        outputs: vec![TXOutput { value: 5, pub_key_hash: vec![6, 7] }],
    };
    let expected: Vec<u8> = vec![
        1, 0, 0, 0, 0, 0, 0, 0, 0xaa, // id
        1, 0, 0, 0, 0, 0, 0, 0, // one input
        1, 0, 0, 0, 0, 0, 0, 0, 1, // txid
        2, 0, 0, 0, 0, 0, 0, 0, // vout
        0, 0, 0, 0, 0, 0, 0, 0, // signature
        1, 0, 0, 0, 0, 0, 0, 0, 3, // public key
        1, 0, 0, 0, 0, 0, 0, 0, // one output
        5, 0, 0, 0, // value
        2, 0, 0, 0, 0, 0, 0, 0, 6, 7, // key hash
    ];
    assert_eq!(tx.serialize(), expected);
    assert_eq!(tx.set_hash(), h(&expected));
    let trimmed = tx.trimmed_copy();
    assert!(trimmed.inputs[0].pub_key.is_empty());
    assert_eq!(trimmed.inputs[0].txid, vec![1]);
    assert_eq!(trimmed.id, vec![0xaa]);
}

#[test]
fn merkle_root_of_one_two_and_three() {
    let d1 = b"alpha".to_vec();
    let d2 = b"beta".to_vec();
    let d3 = b"gamma".to_vec();
    let (l1, l2, l3) = (h(&d1), h(&d2), h(&d3));

    let one = MerkleTree::new(vec![d1.clone()]).root_node.unwrap();
    assert_eq!(one.data, h(&join(&l1, &l1)));

    let two = MerkleTree::new(vec![d1.clone(), d2.clone()]).root_node.unwrap();
    assert_eq!(two.data, h(&join(&l1, &l2)));

    let three = MerkleTree::new(vec![d1, d2, d3]).root_node.unwrap();
    let p1 = h(&join(&l1, &l2));
    let p2 = h(&join(&l3, &l3));
    assert_eq!(three.data, h(&join(&p1, &p2)));

    assert!(MerkleTree::new(vec![]).root_node.is_none());
}

#[test]
fn merkle_node_digests() {
    let leaf = MerkleNode::new(None, None, b"x".to_vec());
    assert_eq!(leaf.data, h(b"x"));
    let other = MerkleNode::new(None, None, b"y".to_vec());
    let (a, b) = (leaf.data.clone(), other.data.clone());
    let pair = MerkleNode::new(Some(Box::new(leaf)), Some(Box::new(other)), Vec::new());
    assert_eq!(pair.data, h(&join(&a, &b)));
    let lone = MerkleNode::new(None, Some(Box::new(MerkleNode::new(None, None, b"z".to_vec()))), Vec::new());
    let z = h(b"z");
    assert_eq!(lone.data, h(&join(&z, &z)));
}

#[test]
fn block_merkle_commitment() {
    let mut wallets = Wallets::new();
    let a = wallets.new_wallet().unwrap();
    let cb = Transaction::new_coinbase_transcation(&a, &"m".to_string()).unwrap();
    let leaf = h(&cb.serialize());
    let blk = blockchain_in_rust::block::Block::new_at(vec![cb], vec![], 5).unwrap();
    assert_eq!(blk.hash_transactions(), Some(h(&join(&leaf, &leaf))));
    assert_eq!(blk.timestamp, 5);
}

#[test]
fn target_check_reads_leading_bits() {
    let mut hash = vec![0u8; 32];
    hash[1] = 0x0f;
    hash[2] = 0xff;
    assert!(hash_meets_target(&hash));
    hash[1] = 0x10;
    assert!(!hash_meets_target(&hash));
    hash[1] = 0;
    hash[0] = 1;
    assert!(!hash_meets_target(&hash));
}

#[test]
fn key_hashes_and_checksums() {
    let pk = vec![4u8; 65];
    let hashed = publicKey_to_hash(&pk);
    assert_eq!(hashed, ripemd160(&sha3_256(&pk)));
    assert_eq!(hashed.len(), 20);
    assert_ne!(hashed, pk);
    let payload = vec![0u8, 1, 2];
    assert_eq!(checksum(&payload), sha3_256(&sha3_256(&payload))[..4].to_vec());
}

#[test]
fn addresses_round_trip_and_reject() {
    let w = Wallet::new().unwrap();
    let address = w.get_address();
    let mut expected = vec![0u8];
    expected.extend(publicKey_to_hash(&w.public_key));
    let check = sha3_256(&sha3_256(&expected))[..4].to_vec();
    expected.extend(check);
    assert_eq!(address, to_base58(&expected));
    assert!(validate_address(&address));
    assert_eq!(address_to_pubkeyhash(&address), Ok(publicKey_to_hash(&w.public_key)));
    assert_eq!(w.get_hash(), sha3_256(&w.public_key));

    let mut payload = from_base58(&address).unwrap();
    let last = payload.len() - 1;
    payload[last] ^= 1;
    let corrupted = to_base58(&payload);
    assert!(!validate_address(&corrupted));
    assert_eq!(address_to_pubkeyhash(&corrupted), Err(LedgerError::ChecksumMismatch));
    assert_eq!(address_to_pubkeyhash("1111"), Err(LedgerError::AddressTooShort));
    assert_eq!(address_to_pubkeyhash("0OIl"), Err(LedgerError::InvalidBase58));
    assert!(!validate_address("0OIl"));
}

#[test]
fn wallets_hold_keys_by_name() {
    let mut wallets = Wallets::new();
    let a = wallets.new_wallet().unwrap();
    assert!(wallets.get_wallet(&a).is_some());
    assert!(wallets.get_wallet("nobody").is_none());
    let added_key = wallets.add_wallet("named".to_string()).unwrap().public_key.clone();
    assert_eq!(wallets.get_wallet("named").unwrap().public_key, added_key);
    assert_eq!(wallets.wallets.len(), 2);
}
