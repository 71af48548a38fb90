//! Blocks: a transaction list linked to its predecessor by hash, with the
//! nonce and digest found by the proof-of-work search.
use vstd::prelude::*;
use crate::encoding::{bytes_field, u64_le, u32_le, push_bytes, push_u64, push_u32};
use crate::errors::LedgerError;
use crate::merkle_tree::{MerkleTree, merkle_root, byte_strings};
use crate::proof_of_work::{ProofOfWork, pow_digest, found_at};
use crate::transactions::{Transaction, TransactionView, transaction_bytes, transactions_view, lemma_map_push};
use crate::MAX_NONCE;

verus! {

/// A block of the chain.
#[derive(Debug, Clone)]
pub struct Block {
    pub timestamp: u64,
    pub previous_block_hash: Vec<u8>,
    pub hash: Vec<u8>,
    pub transactions: Vec<Transaction>,
    pub nonce: u32,
}

pub struct BlockView {
    pub timestamp: u64,
    pub previous_block_hash: Seq<u8>,
    pub hash: Seq<u8>,
    pub transactions: Seq<TransactionView>,
    pub nonce: u32,
}

impl View for Block {
    type V = BlockView;

    open spec fn view(&self) -> BlockView {
        BlockView {
            timestamp: self.timestamp,
            previous_block_hash: self.previous_block_hash@,
            hash: self.hash@,
            transactions: transactions_view(self.transactions@),
            nonce: self.nonce,
        }
    }
}

pub open spec fn transactions_concat(s: Seq<TransactionView>) -> Seq<u8>
    decreases s.len(),
{
    if s.len() == 0 {
        Seq::empty()
    } else {
        transactions_concat(s.drop_last()) + transaction_bytes(s.last())
    }
}

/// The encoding of a transaction list: its length, then each transaction.
pub open spec fn transactions_bytes(s: Seq<TransactionView>) -> Seq<u8> {
    u64_le(s.len() as u64) + transactions_concat(s)
}

/// The encoding of a block, field by field.
pub open spec fn block_bytes(b: BlockView) -> Seq<u8> {
    u64_le(b.timestamp) + bytes_field(b.previous_block_hash) + bytes_field(b.hash)
        + transactions_bytes(b.transactions) + u32_le(b.nonce)
}

/// A block whose nonce is the first one below `MAX_NONCE` that meets the
/// target, and whose hash is the digest at that nonce.
pub open spec fn is_mined(b: BlockView) -> bool {
    &&& b.nonce < MAX_NONCE
    &&& found_at(b, b.nonce)
    &&& b.hash == pow_digest(b, b.nonce)
    &&& b.hash.len() == 32
}

/// At timestamp `ts`, no nonce below `MAX_NONCE` meets the target for a
/// block over `txs` linked to `prev`.
pub open spec fn no_nonce_at(ts: u64, prev: Seq<u8>, txs: Seq<TransactionView>) -> bool {
    forall|m: u32| #![trigger found_at(BlockView { timestamp: ts, previous_block_hash: prev, hash: Seq::empty(), transactions: txs, nonce: 0 }, m)]
        m < MAX_NONCE ==> !found_at(
            BlockView { timestamp: ts, previous_block_hash: prev, hash: Seq::empty(), transactions: txs, nonce: 0 },
            m,
        )
}

/// For some timestamp, the nonce search over `txs` linked to `prev` finds
/// nothing.
pub open spec fn exhausted(prev: Seq<u8>, txs: Seq<TransactionView>) -> bool {
    exists|ts: u64| no_nonce_at(ts, prev, txs)
}

/// The leaf list of a block's Merkle tree: the encodings of its transactions.
pub open spec fn encoded_transactions(s: Seq<TransactionView>) -> Seq<Seq<u8>> {
    s.map_values(|t: TransactionView| transaction_bytes(t))
}

/// Relies on `std::time::SystemTime::now` and `duration_since(UNIX_EPOCH)`:
/// whole seconds since the Unix epoch, or 0 for a clock set before it.
#[verifier::external_body]
fn now_secs() -> (r: u64) {
    std::time::SystemTime::now().duration_since(std::time::UNIX_EPOCH).map(|d| d.as_secs()).unwrap_or(0)
}

/// Appends the encoding of a transaction list.
pub fn encode_transactions_into(txs: &Vec<Transaction>, out: &mut Vec<u8>)
    ensures
        final(out)@ == old(out)@ + transactions_bytes(transactions_view(txs@)),
{
    let ghost s = transactions_view(txs@);
    push_u64(out, txs.len() as u64);
    let ghost base = out@;
    let mut i: usize = 0;
    while i < txs.len()
        invariant
            i <= txs@.len(),
            s == transactions_view(txs@),
            out@ == base + transactions_concat(s.subrange(0, i as int)),
        decreases txs@.len() - i,
    {
        txs[i].encode_into(out);
        i = i + 1;
        assert(s.subrange(0, i as int).drop_last() =~= s.subrange(0, i - 1));
        assert(out@ =~= base + transactions_concat(s.subrange(0, i as int)));
    }
    assert(s.subrange(0, s.len() as int) =~= s);
    assert(out@ =~= old(out)@ + transactions_bytes(s));
}

impl Block {
    /// A copy equal to this block.
    pub fn copy(&self) -> (r: Block)
        ensures
            r@ == self@,
    {
        let mut transactions: Vec<Transaction> = Vec::new();
        let mut i: usize = 0;
        while i < self.transactions.len()
            invariant
                i <= self.transactions@.len(),
                transactions_view(transactions@) == transactions_view(self.transactions@).subrange(0, i as int),
            decreases self.transactions@.len() - i,
        {
            let ghost before = transactions@;
            let t = self.transactions[i].copy();
            transactions.push(t);
            proof {
                lemma_map_push(before, t, |x: Transaction| x@);
            }
            i = i + 1;
            assert(transactions_view(transactions@) =~= transactions_view(self.transactions@).subrange(0, i as int));
        }
        assert(transactions_view(transactions@) =~= transactions_view(self.transactions@));
        Block {
            timestamp: self.timestamp,
            previous_block_hash: self.previous_block_hash.clone(),
            hash: self.hash.clone(),
            transactions,
            nonce: self.nonce,
        }
    }

    /// The Merkle root over the encodings of this block's transactions.
    pub fn hash_transactions(&self) -> (r: Option<Vec<u8>>)
        ensures
            self.transactions@.len() == 0 ==> r is None,
            self.transactions@.len() > 0 ==> (r matches Some(h) && h@ == merkle_root(
                encoded_transactions(self@.transactions),
            )),
    {
        let mut tx_serialized: Vec<Vec<u8>> = Vec::new();
        let mut i: usize = 0;
        while i < self.transactions.len()
            invariant
                i <= self.transactions@.len(),
                byte_strings(tx_serialized@) == encoded_transactions(self@.transactions).subrange(0, i as int),
            decreases self.transactions@.len() - i,
        {
            let ghost before = tx_serialized@;
            let enc = self.transactions[i].serialize();
            tx_serialized.push(enc);
            proof {
                lemma_map_push(before, enc, |d: Vec<u8>| d@);
            }
            i = i + 1;
            assert(byte_strings(tx_serialized@) =~= encoded_transactions(self@.transactions).subrange(0, i as int));
        }
        assert(byte_strings(tx_serialized@) =~= encoded_transactions(self@.transactions));
        let mtree = MerkleTree::new(tx_serialized);
        match mtree.root_node {
            Some(root) => Some(root.data),
            None => None,
        }
    }

    /// Mines a block over `transactions` that links to `prev_block_hash`,
    /// stamped with the current time.
    pub fn new(transactions: Vec<Transaction>, prev_block_hash: Vec<u8>) -> (r: Result<Block, LedgerError>)
        ensures
            match r {
                Ok(b) => {
                    &&& is_mined(b@)
                    &&& b@.transactions == transactions_view(transactions@)
                    &&& b@.previous_block_hash == prev_block_hash@
                },
                Err(e) => e == LedgerError::NonceExhausted && exhausted(prev_block_hash@, transactions_view(transactions@)),
            },
    {
        let timestamp = now_secs();
        let ghost prev = prev_block_hash@;
        let ghost txs = transactions_view(transactions@);
        let r = Block::new_at(transactions, prev_block_hash, timestamp);
        proof {
            if r is Err {
                assert(no_nonce_at(timestamp, prev, txs));
            }
        }
        r
    }

    /// Mines a block over `transactions` that links to `prev_block_hash`,
    /// stamped with `timestamp`: the first nonce that meets the target is
    /// taken, and the search fails once the nonces run out.
    pub fn new_at(transactions: Vec<Transaction>, prev_block_hash: Vec<u8>, timestamp: u64) -> (r: Result<Block, LedgerError>)
        ensures
            match r {
                Ok(b) => {
                    &&& is_mined(b@)
                    &&& b@.transactions == transactions_view(transactions@)
                    &&& b@.previous_block_hash == prev_block_hash@
                    &&& b@.timestamp == timestamp
                },
                Err(e) => {
                    &&& e == LedgerError::NonceExhausted
                    &&& no_nonce_at(timestamp, prev_block_hash@, transactions_view(transactions@))
                },
            },
    {
        let mut block = Block {
            timestamp,
            previous_block_hash: prev_block_hash,
            transactions,
            hash: Vec::new(),
            nonce: 0,
        };
        let ghost unmined = block@;
        let found = {
            let pow = ProofOfWork::new(&block);
            pow.run()
        };
        match found {
            Ok((nonce, hash)) => {
                assert(found_at(unmined, nonce));
                assert(hash@ == pow_digest(unmined, nonce));
                block.nonce = nonce;
                block.hash = hash;
                proof {
                    crate::proof_of_work::lemma_digest_ignores_seal(unmined, block@, nonce);
                }
                assert(block@.hash == pow_digest(block@, nonce));
                assert(found_at(block@, block@.nonce));
                Ok(block)
            },
            Err(e) => Err(e),
        }
    }

    /// The encoding of this block.
    pub fn serialize(&self) -> (r: Vec<u8>)
        ensures
            r@ == block_bytes(self@),
    {
        let mut out: Vec<u8> = Vec::new();
        push_u64(&mut out, self.timestamp);
        push_bytes(&mut out, self.previous_block_hash.as_slice());
        push_bytes(&mut out, self.hash.as_slice());
        encode_transactions_into(&self.transactions, &mut out);
        push_u32(&mut out, self.nonce);
        assert(out@ =~= block_bytes(self@));
        out
    }

    /// The encoding of this block's transaction list.
    pub fn serialize_transactions(&self) -> (r: Vec<u8>)
        ensures
            r@ == transactions_bytes(self@.transactions),
    {
        let mut out: Vec<u8> = Vec::new();
        encode_transactions_into(&self.transactions, &mut out);
        assert(out@ =~= transactions_bytes(self@.transactions));
        out
    }
}

} // verus!

verus! {

/// Encoding a transaction list distributes over concatenation.
pub proof fn lemma_transactions_concat_add(s1: Seq<TransactionView>, s2: Seq<TransactionView>)
    ensures
        transactions_concat(s1 + s2) == transactions_concat(s1) + transactions_concat(s2),
    decreases s2.len(),
{
    if s2.len() == 0 {
        assert(s1 + s2 =~= s1);
        assert(transactions_concat(s1) + transactions_concat(s2) =~= transactions_concat(s1));
    } else {
        lemma_transactions_concat_add(s1, s2.drop_last());
        assert((s1 + s2).drop_last() =~= s1 + s2.drop_last());
        assert((s1 + s2).last() == s2.last());
        assert(transactions_concat(s1 + s2) =~= transactions_concat(s1) + transactions_concat(s2));
    }
}

proof fn lemma_transactions_concat_one(t: TransactionView)
    ensures
        transactions_concat(seq![t]) == transaction_bytes(t),
{
    assert(seq![t].drop_last().len() == 0);
    assert(transactions_concat(seq![t].drop_last()) == Seq::<u8>::empty());
    assert(seq![t].last() == t);
    assert(transactions_concat(seq![t]) =~= transaction_bytes(t));
}

/// Altering a block's encoded transactions without changing their length
/// changes the bytes hashed at every nonce.
pub proof fn lemma_tampering_changes_preimage(a: BlockView, b: BlockView, nonce: u32)
    requires
        a.previous_block_hash == b.previous_block_hash,
        a.timestamp == b.timestamp,
        transactions_bytes(a.transactions).len() == transactions_bytes(b.transactions).len(),
        transactions_bytes(a.transactions) != transactions_bytes(b.transactions),
    ensures
        crate::proof_of_work::pow_data(a, nonce) != crate::proof_of_work::pow_data(b, nonce),
{
    let tail = crate::proof_of_work::hex_text(a.timestamp as nat) + crate::proof_of_work::hex_text(
        crate::TARGET_BITS as nat,
    ) + crate::proof_of_work::hex_text(nonce as nat);
    assert(crate::proof_of_work::pow_data(a, nonce) =~= a.previous_block_hash + transactions_bytes(a.transactions) + tail);
    assert(crate::proof_of_work::pow_data(b, nonce) =~= a.previous_block_hash + transactions_bytes(b.transactions) + tail);
    crate::transactions::lemma_splice_differs(
        a.previous_block_hash,
        transactions_bytes(a.transactions),
        transactions_bytes(b.transactions),
        tail,
    );
}

/// The byte at offset `p` of the `i`-th transaction's encoding, found in the
/// encoding of the whole list.
proof fn lemma_concat_at(s: Seq<TransactionView>, i: int, p: int)
    requires
        0 <= i < s.len(),
        0 <= p < transaction_bytes(s[i]).len(),
    ensures
        transactions_concat(s)[transactions_concat(s.subrange(0, i)).len() + p] == transaction_bytes(s[i])[p],
        transactions_concat(s.subrange(0, i)).len() + p < transactions_concat(s).len(),
{
    let pre = s.subrange(0, i);
    let post = s.subrange(i + 1, s.len() as int);
    assert(s =~= pre + seq![s[i]] + post);
    lemma_transactions_concat_add(pre + seq![s[i]], post);
    lemma_transactions_concat_add(pre, seq![s[i]]);
    lemma_transactions_concat_one(s[i]);
    let ca = transactions_concat(pre);
    let ex = transaction_bytes(s[i]);
    let k = ca.len() + p;
    assert((ca + ex)[k] == ex[p]);
    assert(((ca + ex) + transactions_concat(post))[k] == (ca + ex)[k]);
}

/// Swapping two transactions of a block changes the bytes hashed at every
/// nonce, where their encodings differ within their common length.
pub proof fn lemma_reorder_changes_preimage(b: BlockView, i: int, j: int, p: int, nonce: u32)
    requires
        0 <= i < j < b.transactions.len(),
        0 <= p < transaction_bytes(b.transactions[i]).len(),
        p < transaction_bytes(b.transactions[j]).len(),
        transaction_bytes(b.transactions[i])[p] != transaction_bytes(b.transactions[j])[p],
    ensures
        crate::proof_of_work::pow_data(b, nonce) != crate::proof_of_work::pow_data(
            BlockView {
                transactions: b.transactions.update(i, b.transactions[j]).update(j, b.transactions[i]),
                ..b
            },
            nonce,
        ),
{
    let s = b.transactions;
    let s2 = s.update(i, s[j]).update(j, s[i]);
    let b2 = BlockView { transactions: s2, ..b };
    assert(s.subrange(0, i) =~= s2.subrange(0, i));
    lemma_concat_at(s, i, p);
    lemma_concat_at(s2, i, p);
    let c1 = transactions_concat(s);
    let c2 = transactions_concat(s2);
    let k = transactions_concat(s.subrange(0, i)).len() + p;
    assert(c1[k] != c2[k]);
    let t1 = transactions_bytes(s);
    let t2 = transactions_bytes(s2);
    assert(t1[8 + k] == c1[k]);
    assert(t2[8 + k] == c2[k]);
    let prev = b.previous_block_hash;
    let m = prev.len() + 8 + k;
    assert((prev + t1)[m] == t1[8 + k]);
    assert((prev + t2)[m] == t2[8 + k]);
    let d1 = crate::proof_of_work::pow_data(b, nonce);
    let d2 = crate::proof_of_work::pow_data(b2, nonce);
    assert(d1[m] == (prev + t1)[m]);
    assert(d2[m] == (prev + t2)[m]);
}

} // verus!
