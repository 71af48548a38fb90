//! The chain: blocks from genesis to tip, each linked to its predecessor by
//! hash and sealed by proof of work, with the scans that read it.
use vstd::prelude::*;
use crate::block::{Block, BlockView, exhausted};
use crate::transactions::coinbase_view;
use crate::errors::LedgerError;
use crate::proof_of_work::{pow_digest, meets_target};
use crate::transactions::{
    Transaction, TransactionView, transactions_view, lookup, find_by_id, verify_result,
    is_coinbase_view, lemma_map_push,
};
use crate::functions::decode_address;
use crate::spending::{
    OutPoint, UnspentOutput, UnspentView, spent_refs, unspent_list, with_unspent, unspent_view,
    outpoints_view, collect_spent_refs, collect_unspent, contains_ref, select_first_fit,
    value_sum, selection, as_outpoints, tx_unspent, spendable,
};
use crate::transactions::{TXOutput, TXOutputView, outputs_view};
use crate::functions::address_to_pubkeyhash;
use crate::MAX_NONCE;

verus! {

/// The payload of the genesis coinbase: the UTF-8 bytes of "Genesis Block".
pub open spec fn genesis_data() -> Seq<u8> {
    vstd::utf8::encode_utf8("Genesis Block"@)
}

/// A block whose hash is the digest at its own nonce and meets the target.
pub open spec fn is_sealed(b: BlockView) -> bool {
    &&& b.nonce < MAX_NONCE
    &&& b.hash == pow_digest(b, b.nonce)
    &&& meets_target(b.hash)
    &&& b.hash.len() == 32
}

/// Blocks from genesis to tip: only the first has an empty previous hash,
/// each other links to the one before it, and every block is sealed.
pub open spec fn chain_well_formed(bs: Seq<BlockView>) -> bool {
    &&& bs.len() >= 1
    &&& bs[0].previous_block_hash.len() == 0
    &&& forall|k: int| 1 <= k < bs.len() ==> (#[trigger] bs[k]).previous_block_hash == bs[k - 1].hash
    &&& forall|k: int| 0 <= k < bs.len() ==> is_sealed(#[trigger] bs[k])
}

/// The transactions of a chain in scan order: from the tip back to genesis,
/// each block's transactions in their own order.
pub open spec fn traversal(bs: Seq<BlockView>) -> Seq<TransactionView>
    decreases bs.len(),
{
    if bs.len() == 0 {
        Seq::empty()
    } else {
        bs.last().transactions + traversal(bs.drop_last())
    }
}

/// Whether some transaction in `txs` fails verification against `all`: any
/// failure, a bad signature or an unresolved input, rejects the block.
pub open spec fn admission_error(txs: Seq<TransactionView>, all: Seq<TransactionView>) -> Option<LedgerError>
    decreases txs.len(),
{
    if txs.len() == 0 {
        None
    } else {
        match verify_result(txs[0], all) {
            Ok(true) => admission_error(txs.drop_first(), all),
            _ => Some(LedgerError::InvalidTransaction),
        }
    }
}

/// Extending a well-formed chain by a sealed block that links to its tip
/// keeps it well formed.
pub proof fn lemma_extend_well_formed(bs: Seq<BlockView>, b: BlockView)
    requires
        chain_well_formed(bs),
        is_sealed(b),
        b.previous_block_hash == bs.last().hash,
    ensures
        chain_well_formed(bs.push(b)),
{
    let ext = bs.push(b);
    assert forall|k: int| 1 <= k < ext.len() implies (#[trigger] ext[k]).previous_block_hash == ext[k - 1].hash by {
        if k < bs.len() {
            assert(ext[k] == bs[k]);
            assert(ext[k - 1] == bs[k - 1]);
        }
    }
    assert forall|k: int| 0 <= k < ext.len() implies is_sealed(#[trigger] ext[k]) by {
        if k < bs.len() {
            assert(ext[k] == bs[k]);
        }
    }
}

pub open spec fn blocks_view(s: Seq<Block>) -> Seq<BlockView> {
    s.map_values(|b: Block| b@)
}

/// Scanning a chain visits the oldest block's transactions last.
pub proof fn lemma_traversal_front(bs: Seq<BlockView>)
    requires
        bs.len() >= 1,
    ensures
        traversal(bs) == traversal(bs.drop_first()) + bs[0].transactions,
    decreases bs.len(),
{
    if bs.len() == 1 {
        assert(bs.drop_last().len() == 0);
        assert(bs.drop_first().len() == 0);
        assert(traversal(bs.drop_last()) == Seq::<TransactionView>::empty());
        assert(traversal(bs.drop_first()) == Seq::<TransactionView>::empty());
        assert(bs.last() == bs[0]);
        assert(traversal(bs) =~= bs[0].transactions);
    } else {
        lemma_traversal_front(bs.drop_last());
        assert(bs.drop_last().drop_first() =~= bs.drop_first().drop_last());
        assert(bs.drop_first().last() == bs.last());
        assert(traversal(bs) =~= traversal(bs.drop_first()) + bs[0].transactions);
    }
}

/// The unspent outputs of a chain spendable under `key`, in scan order.
pub open spec fn chain_unspent(bs: Seq<BlockView>, key: Option<Seq<u8>>) -> Seq<UnspentView> {
    unspent_list(spent_refs(traversal(bs)), traversal(bs), key)
}

pub open spec fn unspent_outputs_of(l: Seq<UnspentView>) -> Seq<TXOutputView> {
    l.map_values(|u: UnspentView| u.output)
}

/// A chain of blocks held from genesis to tip.
#[derive(Debug)]
pub struct BlockChain {
    blocks: Vec<Block>,
}

impl View for BlockChain {
    type V = Seq<BlockView>;

    closed spec fn view(&self) -> Seq<BlockView> {
        blocks_view(self.blocks@)
    }
}

impl BlockChain {
    /// Genesis first with an empty previous hash, every other block linked
    /// to the one before it, every block sealed.
    pub open spec fn well_formed(&self) -> bool {
        chain_well_formed(self@)
    }

    /// A chain whose genesis block holds one coinbase crediting `address`.
    pub fn new_blockchain(address: &String) -> (r: Result<BlockChain, LedgerError>)
        ensures
            match decode_address(address@) {
                Err(e) => r == Err::<BlockChain, LedgerError>(e),
                Ok(h) => match r {
                    Ok(bc) => {
                        &&& bc.well_formed()
                        &&& bc@.len() == 1
                        &&& bc@[0].transactions == seq![coinbase_view(h, genesis_data())]
                    },
                    Err(e) => e == LedgerError::NonceExhausted && exhausted(
                        Seq::empty(),
                        seq![coinbase_view(h, genesis_data())],
                    ),
                },
            },
    {
        let data = String::from_str("Genesis Block");
        let cbtx = Transaction::new_coinbase_transcation(address, &data)?;
        let genesis = Self::NewGenesisBlock(cbtx)?;
        let bc = BlockChain { blocks: vec![genesis] };
        assert(bc@ =~= seq![genesis@]);
        Ok(bc)
    }

    /// A chain over blocks loaded from storage, genesis first, once each link
    /// and each seal has been checked; `None` where one fails.
    pub fn from_blocks(blocks: Vec<Block>) -> (r: Option<BlockChain>)
        ensures
            match r {
                Some(bc) => bc.well_formed() && bc@ == blocks_view(blocks@),
                None => !chain_well_formed(blocks_view(blocks@)),
            },
    {
        let ghost bs = blocks_view(blocks@);
        if blocks.len() == 0 {
            return None;
        }
        if blocks[0].previous_block_hash.len() != 0 {
            return None;
        }
        let mut k: usize = 0;
        while k < blocks.len()
            invariant
                k <= blocks@.len(),
                bs == blocks_view(blocks@),
                bs.len() >= 1,
                bs[0].previous_block_hash.len() == 0,
                forall|j: int| 1 <= j < k ==> (#[trigger] bs[j]).previous_block_hash == bs[j - 1].hash,
                forall|j: int| 0 <= j < k ==> is_sealed(#[trigger] bs[j]),
            decreases blocks@.len() - k,
        {
            let b = &blocks[k];
            assert(bs[k as int] == b@);
            if k > 0 && !crate::functions::bytes_equal(&b.previous_block_hash, &blocks[k - 1].hash) {
                assert(bs[k as int - 1] == blocks@[k - 1]@);
                return None;
            }
            if b.nonce >= MAX_NONCE || b.hash.len() != 32 {
                return None;
            }
            let pow = crate::proof_of_work::ProofOfWork::new(b);
            let data = pow.prepare_data(b.nonce);
            let digest = crate::crypto::sha3_256(data.as_slice());
            if !crate::functions::bytes_equal(&digest, &b.hash) {
                return None;
            }
            if !crate::proof_of_work::hash_meets_target(&digest) {
                return None;
            }
            if k > 0 {
                assert(bs[k as int - 1] == blocks@[k - 1]@);
            }
            k = k + 1;
        }
        Some(BlockChain { blocks })
    }

    /// The genesis block over one coinbase transaction.
    #[allow(non_snake_case)]
    pub fn NewGenesisBlock(coinbase: Transaction) -> (r: Result<Block, LedgerError>)
        ensures
            match r {
                Ok(b) => {
                    &&& is_sealed(b@)
                    &&& b@.previous_block_hash.len() == 0
                    &&& b@.transactions == seq![coinbase@]
                },
                Err(e) => e == LedgerError::NonceExhausted && exhausted(Seq::empty(), seq![coinbase@]),
            },
    {
        let ghost c = coinbase@;
        let transactions = vec![coinbase];
        assert(transactions_view(transactions@) =~= seq![c]);
        let b = Block::new(transactions, Vec::new())?;
        Ok(b)
    }

    /// The hash of the newest block; empty for a chain with no blocks.
    pub fn tip(&self) -> (r: Vec<u8>)
        ensures
            self@.len() > 0 ==> r@ == self@.last().hash,
            self@.len() == 0 ==> r@.len() == 0,
    {
        let n = self.blocks.len();
        if n == 0 {
            return Vec::new();
        }
        self.blocks[n - 1].hash.clone()
    }

    /// The blocks from genesis to tip.
    pub fn blocks(&self) -> (r: &Vec<Block>)
        ensures
            blocks_view(r@) == self@,
    {
        &self.blocks
    }

    /// Copies of all transactions in scan order.
    pub fn all_transactions(&self) -> (r: Vec<Transaction>)
        ensures
            transactions_view(r@) == traversal(self@),
    {
        let ghost bs = self@;
        let mut out: Vec<Transaction> = Vec::new();
        let mut k: usize = self.blocks.len();
        assert(bs.subrange(k as int, bs.len() as int) =~= Seq::<BlockView>::empty());
        while k > 0
            invariant
                k <= self.blocks@.len(),
                bs == self@,
                transactions_view(out@) == traversal(bs.subrange(k as int, bs.len() as int)),
            decreases k,
        {
            k = k - 1;
            let block = &self.blocks[k];
            let ghost base = out@;
            let mut i: usize = 0;
            while i < block.transactions.len()
                invariant
                    i <= block.transactions@.len(),
                    transactions_view(out@) == transactions_view(base) + transactions_view(block.transactions@).subrange(0, i as int),
                decreases block.transactions@.len() - i,
            {
                let ghost before = out@;
                let t = block.transactions[i].copy();
                out.push(t);
                proof {
                    lemma_map_push(before, t, |x: Transaction| x@);
                }
                i = i + 1;
                assert(transactions_view(out@) =~= transactions_view(base) + transactions_view(block.transactions@).subrange(0, i as int));
            }
            proof {
                let s = bs.subrange(k as int, bs.len() as int);
                lemma_traversal_front(s);
                assert(s.drop_first() =~= bs.subrange(k + 1, bs.len() as int));
                assert(s[0] == block@);
                assert(transactions_view(block.transactions@).subrange(0, i as int) =~= block@.transactions);
            }
        }
        assert(bs.subrange(0, bs.len() as int) =~= bs);
        out
    }

    /// The first transaction in scan order with the given id.
    pub fn find_transaction(&self, id: &Vec<u8>) -> (r: Result<Transaction, LedgerError>)
        ensures
            match lookup(traversal(self@), id@) {
                Some(t) => r matches Ok(x) && x@ == t,
                None => r == Err::<Transaction, LedgerError>(LedgerError::TransactionNotFound),
            },
    {
        let all = self.all_transactions();
        match find_by_id(&all, id) {
            Some(k) => Ok(all[k].copy()),
            None => Err(LedgerError::TransactionNotFound),
        }
    }

    /// Signs `tx` with the key held in the PKCS#8 document `pkcs8`, resolving
    /// its inputs against the chain.
    pub fn sign_transaction(&self, tx: &mut Transaction, pkcs8: &Vec<u8>) -> (r: Result<(), LedgerError>)
        ensures
            is_coinbase_view(old(tx)@) ==> r is Ok && final(tx)@ == old(tx)@,
            !is_coinbase_view(old(tx)@) ==> match crate::transactions::resolution_error(traversal(self@), old(tx)@.inputs) {
                Some(e) => r == Err::<(), LedgerError>(e) && final(tx)@ == old(tx)@,
                None => {
                    ||| r is Ok && crate::transactions::signed_by(
                        final(tx)@,
                        old(tx)@,
                        traversal(self@),
                        crate::crypto::pkcs8_public_key(pkcs8@),
                    )
                    ||| r == Err::<(), LedgerError>(LedgerError::SigningFailed) && final(tx)@ == old(tx)@
                },
            },
    {
        let prev_txs = self.all_transactions();
        tx.sign(pkcs8, &prev_txs)
    }

    /// Verifies `tx`, resolving its inputs against the chain.
    pub fn verify_transaction(&self, tx: &Transaction) -> (r: Result<bool, LedgerError>)
        ensures
            r == verify_result(tx@, traversal(self@)),
    {
        let prev_txs = self.all_transactions();
        tx.verify(&prev_txs)
    }

    /// The unspent outputs locked to `pub_key_hash`, in scan order.
    pub fn unspent_outputs(&self, pub_key_hash: &Vec<u8>) -> (r: Vec<UnspentOutput>)
        ensures
            unspent_view(r@) == chain_unspent(self@, Some(pub_key_hash@)),
            forall|k: int| 0 <= k < r@.len() ==> (#[trigger] r@[k]).output.value > 0,
    {
        let all = self.all_transactions();
        let refs = collect_spent_refs(&all);
        collect_unspent(&all, &refs, Some(pub_key_hash))
    }

    /// The transactions, in scan order, that hold an unspent output locked to
    /// `pub_key_hash`; each appears once.
    pub fn find_unspent_transactions(&self, pub_key_hash: &Vec<u8>) -> (r: Vec<Transaction>)
        ensures
            transactions_view(r@) == with_unspent(
                spent_refs(traversal(self@)),
                traversal(self@),
                Some(pub_key_hash@),
            ),
    {
        let all = self.all_transactions();
        let refs = collect_spent_refs(&all);
        let ghost txs = transactions_view(all@);
        let ghost spent = outpoints_view(refs@);
        let ghost key = Some(pub_key_hash@);
        let mut out: Vec<Transaction> = Vec::new();
        let mut i: usize = 0;
        while i < all.len()
            invariant
                i <= all@.len(),
                txs == transactions_view(all@),
                spent == outpoints_view(refs@),
                key == Some(pub_key_hash@),
                transactions_view(out@) == with_unspent(spent, txs.subrange(0, i as int), key),
            decreases all@.len() - i,
        {
            let t = &all[i];
            let mut found = false;
            let mut j: usize = 0;
            while j < t.outputs.len()
                invariant
                    j <= t.outputs@.len(),
                    spent == outpoints_view(refs@),
                    key == Some(pub_key_hash@),
                    found == (tx_unspent(spent, t@, key, j as int).len() > 0),
                decreases t.outputs@.len() - j,
            {
                let o = &t.outputs[j];
                assert(t@.outputs[j as int] == o@);
                if o.value > 0 && o.is_locked_with_key(pub_key_hash) && !contains_ref(&refs, &t.id, j) {
                    found = true;
                }
                j = j + 1;
            }
            assert(txs.subrange(0, i + 1).drop_last() =~= txs.subrange(0, i as int));
            assert(txs.subrange(0, i + 1).last() == t@);
            if found {
                let ghost before = out@;
                let c = t.copy();
                out.push(c);
                proof {
                    lemma_map_push(before, c, |x: Transaction| x@);
                }
            }
            i = i + 1;
            assert(transactions_view(out@) =~= with_unspent(spent, txs.subrange(0, i as int), key));
        }
        assert(txs.subrange(0, i as int) =~= txs);
        out
    }

    /// The unspent outputs locked to the key hash that `address` carries.
    pub fn find_utxo(&self, address: &str) -> (r: Result<Vec<TXOutput>, LedgerError>)
        ensures
            match decode_address(address@) {
                Ok(h) => r matches Ok(v) && outputs_view(v@) == unspent_outputs_of(chain_unspent(self@, Some(h))),
                Err(e) => r == Err::<Vec<TXOutput>, LedgerError>(e),
            },
    {
        let pub_key_hash = address_to_pubkeyhash(address)?;
        let found = self.unspent_outputs(&pub_key_hash);
        let ghost l = unspent_view(found@);
        let mut utxos: Vec<TXOutput> = Vec::new();
        let mut i: usize = 0;
        while i < found.len()
            invariant
                i <= found@.len(),
                l == unspent_view(found@),
                outputs_view(utxos@) == unspent_outputs_of(l).subrange(0, i as int),
            decreases found@.len() - i,
        {
            let ghost before = utxos@;
            let o = found[i].output.copy();
            utxos.push(o);
            proof {
                lemma_map_push(before, o, |x: TXOutput| x@);
            }
            i = i + 1;
            assert(outputs_view(utxos@) =~= unspent_outputs_of(l).subrange(0, i as int));
        }
        assert(outputs_view(utxos@) =~= unspent_outputs_of(l));
        Ok(utxos)
    }

    /// The first-fit choice of unspent outputs locked to `pub_key_hash`, in
    /// scan order, that covers `amount`: the total taken and the outputs.
    pub fn find_spendable_outputs(&self, pub_key_hash: &Vec<u8>, amount: i32) -> (r: (i64, Vec<OutPoint>))
        ensures
            r.0 == value_sum(selection(chain_unspent(self@, Some(pub_key_hash@)), amount as int)),
            outpoints_view(r.1@) == as_outpoints(selection(chain_unspent(self@, Some(pub_key_hash@)), amount as int)),
            0 <= r.0,
            amount > 0 ==> r.0 < amount + 0x8000_0000,
    {
        let list = self.unspent_outputs(pub_key_hash);
        select_first_fit(&list, amount)
    }

    /// Admits a block over `transactions` at the tip. Every transaction must
    /// verify against the chain; on any failure the chain is left as it is
    /// and `InvalidTransaction` is reported.
    #[allow(non_snake_case)]
    pub fn MineBlock(&mut self, transactions: Vec<Transaction>) -> (r: Result<(), LedgerError>)
        requires
            old(self).well_formed(),
        ensures
            final(self).well_formed(),
            match admission_error(transactions_view(transactions@), traversal(old(self)@)) {
                Some(e) => r == Err::<(), LedgerError>(e) && final(self)@ == old(self)@,
                None => match r {
                    Ok(()) => {
                        &&& final(self)@.len() == old(self)@.len() + 1
                        &&& final(self)@.drop_last() == old(self)@
                        &&& final(self)@.last().transactions == transactions_view(transactions@)
                        &&& final(self)@.last().previous_block_hash == old(self)@.last().hash
                    },
                    Err(e) => {
                        &&& e == LedgerError::NonceExhausted
                        &&& exhausted(old(self)@.last().hash, transactions_view(transactions@))
                        &&& final(self)@ == old(self)@
                    },
                },
            },
    {
        let ghost txs = transactions_view(transactions@);
        let ghost all = traversal(self@);
        let mut i: usize = 0;
        assert(txs.subrange(0, txs.len() as int) =~= txs);
        while i < transactions.len()
            invariant
                i <= transactions@.len(),
                txs == transactions_view(transactions@),
                all == traversal(self@),
                self@ == old(self)@,
                self.well_formed(),
                admission_error(txs, all) == admission_error(txs.subrange(i as int, txs.len() as int), all),
            decreases transactions@.len() - i,
        {
            let ghost rest = txs.subrange(i as int, txs.len() as int);
            assert(rest.drop_first() =~= txs.subrange(i + 1, txs.len() as int));
            assert(rest[0] == transactions@[i as int]@);
            match self.verify_transaction(&transactions[i]) {
                Ok(true) => {},
                _ => {
                    return Err(LedgerError::InvalidTransaction);
                },
            }
            i = i + 1;
        }
        assert(txs.subrange(i as int, txs.len() as int) =~= Seq::<TransactionView>::empty());
        let last_hash = self.tip();
        let new_block = Block::new(transactions, last_hash)?;
        let ghost before = self.blocks@;
        self.blocks.push(new_block);
        proof {
            lemma_map_push(before, new_block, |b: Block| b@);
            lemma_extend_well_formed(blocks_view(before), new_block@);
            assert(self@.drop_last() =~= blocks_view(before));
        }
        Ok(())
    }
}

} // verus!

verus! {

/// Every block of a well-formed chain passes the proof-of-work check at its
/// own nonce, which is what `ProofOfWork::validate` reports.
pub proof fn lemma_chain_blocks_validate(bs: Seq<BlockView>)
    requires
        chain_well_formed(bs),
    ensures
        forall|k: int| 0 <= k < bs.len() ==> meets_target(pow_digest(#[trigger] bs[k], bs[k].nonce)),
{
    assert forall|k: int| 0 <= k < bs.len() implies meets_target(pow_digest(#[trigger] bs[k], bs[k].nonce)) by {
        assert(is_sealed(bs[k]));
    }
}

} // verus!
