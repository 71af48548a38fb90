//! An index of unspent outputs by transaction id, kept in step with the
//! chain block by block and rebuildable from it.
use vstd::prelude::*;
use crate::block::Block;
use crate::block_chain::{BlockChain, traversal};
use crate::encoding::{u64_le, push_u64};
use crate::errors::LedgerError;
use crate::functions::{bytes_equal, decode_address};
use crate::spending::{
    OutPoint, UnspentOutput, UnspentView, spendable, spent_refs, tx_unspent, input_refs,
    outpoints_view, unspent_view, collect_spent_refs, contains_ref, select_first_fit, selection,
    value_sum, as_outpoints,
};
use crate::transactions::{
    Transaction, TransactionView, TXOutput, TXOutputView, output_bytes, outputs_view,
    transactions_view, is_coinbase_view, lemma_map_push, lemma_map_update,
};
use crate::block_chain::{chain_unspent, unspent_outputs_of};

verus! {

/// An unspent output and its position in its transaction.
#[derive(Debug, Clone)]
pub struct IndexedOutput {
    pub index: usize,
    pub output: TXOutput,
}

/// The unspent outputs of one transaction.
#[derive(Debug, Clone)]
pub struct UtxoEntry {
    pub txid: Vec<u8>,
    pub outputs: Vec<IndexedOutput>,
}

pub struct EntryView {
    pub txid: Seq<u8>,
    pub outputs: Seq<(usize, TXOutputView)>,
}

impl View for IndexedOutput {
    type V = (usize, TXOutputView);

    open spec fn view(&self) -> (usize, TXOutputView) {
        (self.index, self.output@)
    }
}

pub open spec fn indexed_view(s: Seq<IndexedOutput>) -> Seq<(usize, TXOutputView)> {
    s.map_values(|o: IndexedOutput| o@)
}

impl View for UtxoEntry {
    type V = EntryView;

    open spec fn view(&self) -> EntryView {
        EntryView { txid: self.txid@, outputs: indexed_view(self.outputs@) }
    }
}

pub open spec fn index_view(s: Seq<UtxoEntry>) -> Seq<EntryView> {
    s.map_values(|e: UtxoEntry| e@)
}

/// The position of the first entry for `id`.
pub open spec fn entry_position(idx: Seq<EntryView>, id: Seq<u8>) -> Option<int>
    decreases idx.len(),
{
    if idx.len() == 0 {
        None
    } else if idx[0].txid == id {
        Some(0)
    } else {
        match entry_position(idx.drop_first(), id) {
            Some(k) => Some(k + 1),
            None => None,
        }
    }
}

/// A found position is in range and holds an entry for the id.
pub proof fn lemma_entry_position(idx: Seq<EntryView>, id: Seq<u8>)
    ensures
        entry_position(idx, id) matches Some(p) ==> 0 <= p < idx.len() && idx[p].txid == id,
        entry_position(idx, id) is None ==> forall|k: int| 0 <= k < idx.len() ==> (#[trigger] idx[k]).txid != id,
    decreases idx.len(),
{
    if idx.len() > 0 {
        lemma_entry_position(idx.drop_first(), id);
        if idx[0].txid != id {
            assert forall|k: int| 1 <= k < idx.len() implies #[trigger] idx[k] == idx.drop_first()[k - 1] by {}
        }
    }
}

/// The outputs other than the one at position `vout`.
pub open spec fn keep_others(outs: Seq<(usize, TXOutputView)>, vout: usize) -> Seq<(usize, TXOutputView)>
    decreases outs.len(),
{
    if outs.len() == 0 {
        Seq::empty()
    } else {
        keep_others(outs.drop_last(), vout) + if outs.last().0 != vout {
            seq![outs.last()]
        } else {
            Seq::empty()
        }
    }
}

/// The index once output `vout` of `id` is consumed: it leaves that entry,
/// and an entry left with no outputs is dropped.
pub open spec fn consume(idx: Seq<EntryView>, id: Seq<u8>, vout: usize) -> Seq<EntryView> {
    match entry_position(idx, id) {
        None => idx,
        Some(p) => {
            let rest = keep_others(idx[p].outputs, vout);
            if rest.len() == 0 {
                idx.remove(p)
            } else {
                idx.update(p, EntryView { txid: idx[p].txid, outputs: rest })
            }
        },
    }
}

pub open spec fn consume_all(idx: Seq<EntryView>, refs: Seq<(Seq<u8>, usize)>) -> Seq<EntryView>
    decreases refs.len(),
{
    if refs.len() == 0 {
        idx
    } else {
        consume(consume_all(idx, refs.drop_last()), refs.last().0, refs.last().1)
    }
}

/// The index with the entry for `id` set to `outs`, in place or at the end.
pub open spec fn put(idx: Seq<EntryView>, id: Seq<u8>, outs: Seq<(usize, TXOutputView)>) -> Seq<EntryView> {
    match entry_position(idx, id) {
        None => idx.push(EntryView { txid: id, outputs: outs }),
        Some(p) => idx.update(p, EntryView { txid: id, outputs: outs }),
    }
}

/// Every output of a transaction with its position.
pub open spec fn all_indexed(outs: Seq<TXOutputView>) -> Seq<(usize, TXOutputView)> {
    Seq::new(outs.len(), |i: int| (i as usize, outs[i]))
}

/// The index after a transaction: what its inputs spend is consumed, then
/// its own outputs are entered under its id.
pub open spec fn apply_transaction(idx: Seq<EntryView>, t: TransactionView) -> Seq<EntryView> {
    put(consume_all(idx, input_refs(t)), t.id, all_indexed(t.outputs))
}

/// The index after each transaction of a block in turn.
pub open spec fn apply_block(idx: Seq<EntryView>, txs: Seq<TransactionView>) -> Seq<EntryView>
    decreases txs.len(),
{
    if txs.len() == 0 {
        idx
    } else {
        apply_transaction(apply_block(idx, txs.drop_last()), txs.last())
    }
}

/// The outputs of an entry spendable under `key`, among its first `n`.
pub open spec fn entry_unspent(e: EntryView, key: Option<Seq<u8>>, n: int) -> Seq<UnspentView>
    decreases n,
{
    if n <= 0 {
        Seq::empty()
    } else {
        entry_unspent(e, key, n - 1) + if spendable(e.outputs[n - 1].1, key) {
            seq![UnspentView { txid: e.txid, index: e.outputs[n - 1].0, output: e.outputs[n - 1].1 }]
        } else {
            Seq::empty()
        }
    }
}

/// The outputs the index holds spendable under `key`, entry by entry.
pub open spec fn index_list(idx: Seq<EntryView>, key: Option<Seq<u8>>) -> Seq<UnspentView>
    decreases idx.len(),
{
    if idx.len() == 0 {
        Seq::empty()
    } else {
        index_list(idx.drop_last(), key) + entry_unspent(idx.last(), key, idx.last().outputs.len() as int)
    }
}

pub open spec fn as_indexed(l: Seq<UnspentView>) -> Seq<(usize, TXOutputView)> {
    l.map_values(|u: UnspentView| (u.index, u.output))
}

/// The index a full scan builds: one entry per scanned transaction with
/// unspent outputs, in scan order; a repeated id keeps its first entry.
pub open spec fn build_index(spent: Seq<(Seq<u8>, usize)>, scan: Seq<TransactionView>) -> Seq<EntryView>
    decreases scan.len(),
{
    if scan.len() == 0 {
        Seq::empty()
    } else {
        let prev = build_index(spent, scan.drop_last());
        let t = scan.last();
        let outs = as_indexed(tx_unspent(spent, t, None, t.outputs.len() as int));
        if outs.len() == 0 || entry_position(prev, t.id) is Some {
            prev
        } else {
            prev.push(EntryView { txid: t.id, outputs: outs })
        }
    }
}

/// The index that a chain determines.
pub open spec fn chain_index(bs: Seq<crate::block::BlockView>) -> Seq<EntryView> {
    build_index(spent_refs(traversal(bs)), traversal(bs))
}

pub open spec fn indexed_outputs_bytes(s: Seq<(usize, TXOutputView)>) -> Seq<u8>
    decreases s.len(),
{
    if s.len() == 0 {
        Seq::empty()
    } else {
        indexed_outputs_bytes(s.drop_last()) + u64_le(s.last().0 as u64) + output_bytes(s.last().1)
    }
}

/// The stored value of an entry: its outputs, each with its position.
pub open spec fn entry_bytes(e: EntryView) -> Seq<u8> {
    u64_le(e.outputs.len() as u64) + indexed_outputs_bytes(e.outputs)
}

/// The position of the first entry for `id` in `index`.
pub fn find_entry(index: &Vec<UtxoEntry>, id: &Vec<u8>) -> (r: Option<usize>)
    ensures
        r matches Some(k) ==> k < index@.len() && entry_position(index_view(index@), id@) == Some(k as int),
        r is None ==> entry_position(index_view(index@), id@) is None,
{
    let ghost idx = index_view(index@);
    let mut k: usize = 0;
    assert(idx.subrange(0, idx.len() as int) =~= idx);
    while k < index.len()
        invariant
            k <= index@.len(),
            idx == index_view(index@),
            entry_position(idx, id@) == match entry_position(idx.subrange(k as int, idx.len() as int), id@) {
                Some(j) => Some(j + k),
                None => None,
            },
        decreases index@.len() - k,
    {
        let ghost rest = idx.subrange(k as int, idx.len() as int);
        assert(rest.drop_first() =~= idx.subrange(k + 1, idx.len() as int));
        assert(rest[0] == index@[k as int]@);
        if bytes_equal(&index[k].txid, id) {
            return Some(k);
        }
        k = k + 1;
    }
    None
}

/// Consumes output `vout` of `id` in `index`.
pub fn consume_output(index: &mut Vec<UtxoEntry>, id: &Vec<u8>, vout: usize)
    ensures
        index_view(final(index)@) == consume(index_view(old(index)@), id@, vout),
{
    proof {
        lemma_entry_position(index_view(index@), id@);
    }
    match find_entry(index, id) {
        None => {},
        Some(p) => {
            let ghost outs = index@[p as int]@.outputs;
            let mut kept: Vec<IndexedOutput> = Vec::new();
            let mut i: usize = 0;
            while i < index[p].outputs.len()
                invariant
                    p < index@.len(),
                    outs == index@[p as int]@.outputs,
                    i <= index@[p as int].outputs@.len(),
                    indexed_view(kept@) == keep_others(outs.subrange(0, i as int), vout),
                decreases index@[p as int].outputs@.len() - i,
            {
                let o = &index[p].outputs[i];
                assert(outs.subrange(0, i + 1).drop_last() =~= outs.subrange(0, i as int));
                assert(outs.subrange(0, i + 1).last() == o@);
                if o.index != vout {
                    let ghost before = kept@;
                    let c = IndexedOutput { index: o.index, output: o.output.copy() };
                    kept.push(c);
                    proof {
                        lemma_map_push(before, c, |x: IndexedOutput| x@);
                    }
                }
                i = i + 1;
                assert(indexed_view(kept@) =~= keep_others(outs.subrange(0, i as int), vout));
            }
            assert(outs.subrange(0, i as int) =~= outs);
            let ghost before = index@;
            if kept.len() == 0 {
                index.remove(p);
                assert(index_view(index@) =~= index_view(before).remove(p as int));
            } else {
                let e = UtxoEntry { txid: id.clone(), outputs: kept };
                index[p] = e;
                proof {
                    lemma_map_update(before, p as int, e, |x: UtxoEntry| x@);
                }
            }
        },
    }
}

/// Sets the entry for `id` to `outputs`, in place or at the end.
pub fn put_entry(index: &mut Vec<UtxoEntry>, id: &Vec<u8>, outputs: Vec<IndexedOutput>)
    ensures
        index_view(final(index)@) == put(index_view(old(index)@), id@, indexed_view(outputs@)),
{
    let ghost before = index@;
    let e = UtxoEntry { txid: id.clone(), outputs };
    proof {
        lemma_entry_position(index_view(index@), id@);
    }
    match find_entry(index, id) {
        None => {
            index.push(e);
            proof {
                lemma_map_push(before, e, |x: UtxoEntry| x@);
            }
        },
        Some(p) => {
            index[p] = e;
            proof {
                lemma_map_update(before, p as int, e, |x: UtxoEntry| x@);
            }
        },
    }
}

/// Every output of `t`, each with its position.
pub fn indexed_outputs(t: &Transaction) -> (r: Vec<IndexedOutput>)
    ensures
        indexed_view(r@) == all_indexed(t@.outputs),
{
    let mut r: Vec<IndexedOutput> = Vec::new();
    let mut i: usize = 0;
    while i < t.outputs.len()
        invariant
            i <= t.outputs@.len(),
            indexed_view(r@) == all_indexed(t@.outputs).subrange(0, i as int),
        decreases t.outputs@.len() - i,
    {
        let ghost before = r@;
        let c = IndexedOutput { index: i, output: t.outputs[i].copy() };
        r.push(c);
        proof {
            lemma_map_push(before, c, |x: IndexedOutput| x@);
        }
        i = i + 1;
        assert(indexed_view(r@) =~= all_indexed(t@.outputs).subrange(0, i as int));
    }
    assert(indexed_view(r@) =~= all_indexed(t@.outputs));
    r
}

impl UtxoEntry {
    /// The stored value of this entry.
    pub fn serialize(&self) -> (r: Vec<u8>)
        ensures
            r@ == entry_bytes(self@),
    {
        let ghost outs = self@.outputs;
        let mut out: Vec<u8> = Vec::new();
        push_u64(&mut out, self.outputs.len() as u64);
        let ghost base = out@;
        let mut i: usize = 0;
        while i < self.outputs.len()
            invariant
                i <= self.outputs@.len(),
                outs == self@.outputs,
                out@ == base + indexed_outputs_bytes(outs.subrange(0, i as int)),
            decreases self.outputs@.len() - i,
        {
            let o = &self.outputs[i];
            push_u64(&mut out, o.index as u64);
            o.output.encode_into(&mut out);
            assert(outs.subrange(0, i + 1).drop_last() =~= outs.subrange(0, i as int));
            assert(outs.subrange(0, i + 1).last() == o@);
            i = i + 1;
            assert(out@ =~= base + indexed_outputs_bytes(outs.subrange(0, i as int)));
        }
        assert(outs.subrange(0, i as int) =~= outs);
        assert(out@ =~= entry_bytes(self@));
        out
    }
}

/// A chain together with its index of unspent outputs.
pub struct UTXOSet {
    pub blockchain: BlockChain,
    index: Vec<UtxoEntry>,
}

impl UTXOSet {
    /// The blocks of the chain the index summarises.
    pub closed spec fn chain(&self) -> Seq<crate::block::BlockView> {
        self.blockchain@
    }

    /// The entries of the index, in order.
    pub closed spec fn entries(&self) -> Seq<EntryView> {
        index_view(self.index@)
    }

    /// No two entries of the index share a transaction id, and no entry
    /// holds two outputs at the same position.
    pub open spec fn well_formed(&self) -> bool {
        index_ok(self.entries())
    }

    /// The entries of the index, in order.
    pub fn index(&self) -> (r: &Vec<UtxoEntry>)
        ensures
            index_view(r@) == self.entries(),
    {
        &self.index
    }

    /// The set over `blockchain`, its index built by a full scan.
    pub fn new(blockchain: BlockChain) -> (r: UTXOSet)
        ensures
            r.chain() == blockchain@,
            r.entries() == chain_index(blockchain@),
            r.well_formed(),
    {
        let mut set = UTXOSet { blockchain, index: Vec::new() };
        set.reindex();
        set
    }

    /// Folds a block into the index: for each of its transactions in turn,
    /// the outputs its inputs spend are consumed, then its own outputs are
    /// entered under its id.
    pub fn update(&mut self, block: &Block)
        ensures
            final(self).chain() == old(self).chain(),
            final(self).entries() == apply_block(old(self).entries(), block@.transactions),
            old(self).well_formed() ==> final(self).well_formed(),
    {
        let ghost txs = block@.transactions;
        let ghost start = index_view(self.index@);
        let mut i: usize = 0;
        while i < block.transactions.len()
            invariant
                i <= block.transactions@.len(),
                txs == block@.transactions,
                self.chain() == old(self).chain(),
                start == index_view(old(self).index@),
                index_view(self.index@) == apply_block(start, txs.subrange(0, i as int)),
                index_ok(start) ==> index_ok(index_view(self.index@)),
            decreases block.transactions@.len() - i,
        {
            let t = &block.transactions[i];
            assert(txs.subrange(0, i + 1).drop_last() =~= txs.subrange(0, i as int));
            assert(txs.subrange(0, i + 1).last() == t@);
            let ghost before = index_view(self.index@);
            let ghost refs = input_refs(t@);
            if !t.is_coinbase() {
                let mut j: usize = 0;
                while j < t.inputs.len()
                    invariant
                        j <= t.inputs@.len(),
                        refs == input_refs(t@),
                        !is_coinbase_view(t@),
                        self.chain() == old(self).chain(),
                        index_view(self.index@) == consume_all(before, refs.subrange(0, j as int)),
                        index_ok(start) ==> index_ok(index_view(self.index@)),
                    decreases t.inputs@.len() - j,
                {
                    let vin = &t.inputs[j];
                    assert(refs.subrange(0, j + 1).drop_last() =~= refs.subrange(0, j as int));
                    assert(refs.subrange(0, j + 1).last() == (vin.txid@, vin.vout)) by {
                        assert(t@.inputs[j as int] == vin@);
                    }
                    let ghost pre = index_view(self.index@);
                    consume_output(&mut self.index, &vin.txid, vin.vout);
                    proof {
                        if index_ok(pre) {
                            lemma_consume_ok(pre, vin.txid@, vin.vout);
                        }
                    }
                    j = j + 1;
                }
                assert(refs.subrange(0, j as int) =~= refs);
            } else {
                assert(refs.len() == 0);
            }
            let n_out: usize = t.outputs.len();
            let outs = indexed_outputs(t);
            let ghost pre = index_view(self.index@);
            put_entry(&mut self.index, &t.id, outs);
            proof {
                lemma_all_indexed_value(t@.outputs);
                if index_ok(pre) {
                    lemma_put_ok(pre, t@.id, all_indexed(t@.outputs));
                }
            }
            i = i + 1;
        }
        assert(txs.subrange(0, i as int) =~= txs);
    }

    /// The unspent outputs locked to the key hash that `address` carries,
    /// found by scanning the chain rather than the index.
    pub fn find_utxos(&self, address: &str) -> (r: Result<Vec<TXOutput>, LedgerError>)
        ensures
            match decode_address(address@) {
                Ok(h) => r matches Ok(v) && outputs_view(v@) == unspent_outputs_of(chain_unspent(self.chain(), Some(h))),
                Err(e) => r == Err::<Vec<TXOutput>, LedgerError>(e),
            },
    {
        self.blockchain.find_utxo(address)
    }

    /// The outputs the index holds spendable by `pub_key_hash`.
    pub fn unspent_outputs(&self, pub_key_hash: &Vec<u8>) -> (r: Vec<UnspentOutput>)
        ensures
            unspent_view(r@) == index_list(self.entries(), Some(pub_key_hash@)),
            forall|k: int| 0 <= k < r@.len() ==> (#[trigger] r@[k]).output.value > 0,
    {
        let ghost idx = index_view(self.index@);
        let ghost key = Some(pub_key_hash@);
        let mut out: Vec<UnspentOutput> = Vec::new();
        let mut i: usize = 0;
        while i < self.index.len()
            invariant
                i <= self.index@.len(),
                idx == index_view(self.index@),
                key == Some(pub_key_hash@),
                unspent_view(out@) == index_list(idx.subrange(0, i as int), key),
                forall|m: int| 0 <= m < out@.len() ==> (#[trigger] out@[m]).output.value > 0,
            decreases self.index@.len() - i,
        {
            let e = &self.index[i];
            let ghost base = out@;
            assert(idx.subrange(0, i + 1).drop_last() =~= idx.subrange(0, i as int));
            assert(idx.subrange(0, i + 1).last() == e@);
            let mut j: usize = 0;
            while j < e.outputs.len()
                invariant
                    j <= e.outputs@.len(),
                    key == Some(pub_key_hash@),
                    unspent_view(out@) == unspent_view(base) + entry_unspent(e@, key, j as int),
                    forall|m: int| 0 <= m < out@.len() ==> (#[trigger] out@[m]).output.value > 0,
                decreases e.outputs@.len() - j,
            {
                let o = &e.outputs[j];
                assert(e@.outputs[j as int] == o@);
                if o.output.value > 0 && o.output.is_locked_with_key(pub_key_hash) {
                    let ghost before = out@;
                    let u = UnspentOutput { txid: e.txid.clone(), index: o.index, output: o.output.copy() };
                    out.push(u);
                    proof {
                        lemma_map_push(before, u, |x: UnspentOutput| x@);
                    }
                }
                j = j + 1;
                assert(unspent_view(out@) =~= unspent_view(base) + entry_unspent(e@, key, j as int));
            }
            i = i + 1;
            assert(unspent_view(out@) =~= index_list(idx.subrange(0, i as int), key));
        }
        assert(idx.subrange(0, i as int) =~= idx);
        out
    }

    /// The first-fit choice, in index order, of outputs locked to
    /// `pub_key_hash` that covers `amount`: the total taken and the outputs.
    pub fn find_spendable_outputs(&self, pub_key_hash: &Vec<u8>, amount: i32) -> (r: (i64, Vec<OutPoint>))
        ensures
            r.0 == value_sum(selection(index_list(self.entries(), Some(pub_key_hash@)), amount as int)),
            outpoints_view(r.1@) == as_outpoints(selection(index_list(self.entries(), Some(pub_key_hash@)), amount as int)),
            self.well_formed() ==> outpoints_view(r.1@).no_duplicates(),
    {
        proof {
            if self.well_formed() {
                lemma_selection_no_repeats(self.entries(), Some(pub_key_hash@), amount as int);
            }
        }
        let list = self.unspent_outputs(pub_key_hash);
        select_first_fit(&list, amount)
    }

    /// The number of entries in the index.
    pub fn count_transactions(&self) -> (r: usize)
        ensures
            r == self.entries().len(),
    {
        self.index.len()
    }

    /// Discards the index and rebuilds it by a full scan of the chain.
    pub fn reindex(&mut self)
        ensures
            final(self).chain() == old(self).chain(),
            final(self).entries() == chain_index(old(self).chain()),
            final(self).well_formed(),
    {
        let all = self.blockchain.all_transactions();
        let refs = collect_spent_refs(&all);
        let ghost txs = transactions_view(all@);
        let ghost spent = outpoints_view(refs@);
        let mut index: Vec<UtxoEntry> = Vec::new();
        let mut i: usize = 0;
        while i < all.len()
            invariant
                i <= all@.len(),
                txs == transactions_view(all@),
                spent == outpoints_view(refs@),
                index_view(index@) == build_index(spent, txs.subrange(0, i as int)),
                forall|k: int| 0 <= k < index@.len() ==> positions_distinct(#[trigger] index_view(index@)[k].outputs),
            decreases all@.len() - i,
        {
            let t = &all[i];
            let ghost prev = index@;
            let mut outs: Vec<IndexedOutput> = Vec::new();
            let mut j: usize = 0;
            while j < t.outputs.len()
                invariant
                    j <= t.outputs@.len(),
                    spent == outpoints_view(refs@),
                    indexed_view(outs@) == as_indexed(tx_unspent(spent, t@, None, j as int)),
                    positions_distinct(indexed_view(outs@)),
                    forall|m: int| 0 <= m < outs@.len() ==> (#[trigger] outs@[m]).index < j,
                decreases t.outputs@.len() - j,
            {
                let o = &t.outputs[j];
                assert(t@.outputs[j as int] == o@);
                if o.value > 0 && !contains_ref(&refs, &t.id, j) {
                    let ghost before = outs@;
                    let c = IndexedOutput { index: j, output: o.copy() };
                    outs.push(c);
                    proof {
                        lemma_map_push(before, c, |x: IndexedOutput| x@);
                        let v = indexed_view(outs@);
                        assert forall|a: int, b: int| 0 <= a < b < v.len() implies (#[trigger] v[a]).0 != (#[trigger] v[b]).0 by {
                            assert(v[a] == outs@[a]@);
                            assert(v[b] == outs@[b]@);
                            if b == v.len() - 1 {
                                assert(outs@[a] == before[a]);
                            } else {
                                assert(indexed_view(before)[a] == v[a]);
                                assert(indexed_view(before)[b] == v[b]);
                            }
                        }
                    }
                }
                j = j + 1;
                assert(indexed_view(outs@) =~= as_indexed(tx_unspent(spent, t@, None, j as int)));
            }
            assert(txs.subrange(0, i + 1).drop_last() =~= txs.subrange(0, i as int));
            assert(txs.subrange(0, i + 1).last() == t@);
            if outs.len() > 0 {
                match find_entry(&index, &t.id) {
                    Some(_) => {},
                    None => {
                        let e = UtxoEntry { txid: t.id.clone(), outputs: outs };
                        index.push(e);
                        proof {
                            lemma_map_push(prev, e, |x: UtxoEntry| x@);
                            assert forall|k: int| 0 <= k < index@.len() implies positions_distinct(
                                #[trigger] index_view(index@)[k].outputs,
                            ) by {
                                if k < prev.len() {
                                    assert(index_view(index@)[k] == index_view(prev)[k]);
                                }
                            }
                        }
                    },
                }
            }
            i = i + 1;
        }
        assert(txs.subrange(0, i as int) =~= txs);
        proof {
            lemma_build_index_unique(spent, txs);
        }
        self.index = index;
        assert(index_ok(self.entries()));
    }
}

} // verus!

verus! {

/// Some output of `outs` sits at position `w`.
pub open spec fn has_index(outs: Seq<(usize, TXOutputView)>, w: usize) -> bool {
    exists|m: int| 0 <= m < outs.len() && (#[trigger] outs[m]).0 == w
}

/// The index holds output `vout` of transaction `id`.
pub open spec fn holds(idx: Seq<EntryView>, id: Seq<u8>, vout: usize) -> bool {
    exists|k: int| 0 <= k < idx.len() && (#[trigger] idx[k]).txid == id && has_index(idx[k].outputs, vout)
}

/// No two entries share an id.
pub open spec fn ids_unique(idx: Seq<EntryView>) -> bool {
    forall|a: int, b: int| 0 <= a < b < idx.len() ==> (#[trigger] idx[a]).txid != (#[trigger] idx[b]).txid
}

/// The index after several blocks in turn.
pub open spec fn apply_blocks(idx: Seq<EntryView>, blocks: Seq<Seq<TransactionView>>) -> Seq<EntryView>
    decreases blocks.len(),
{
    if blocks.len() == 0 {
        idx
    } else {
        apply_block(apply_blocks(idx, blocks.drop_last()), blocks.last())
    }
}

proof fn lemma_keep_others(outs: Seq<(usize, TXOutputView)>, v: usize)
    ensures
        !has_index(keep_others(outs, v), v),
        forall|w: usize| has_index(keep_others(outs, v), w) ==> has_index(outs, w),
    decreases outs.len(),
{
    if outs.len() > 0 {
        let prev = outs.drop_last();
        lemma_keep_others(prev, v);
        let r = keep_others(outs, v);
        let rp = keep_others(prev, v);
        assert forall|m: int| 0 <= m < r.len() implies (#[trigger] r[m]).0 != v by {
            if m < rp.len() {
                assert(r[m] == rp[m]);
            }
        }
        assert forall|w: usize| has_index(r, w) implies has_index(outs, w) by {
            let m = choose|m: int| 0 <= m < r.len() && (#[trigger] r[m]).0 == w;
            if m < rp.len() {
                assert(r[m] == rp[m]);
                assert(has_index(rp, w));
                assert(has_index(prev, w));
                let q = choose|q: int| 0 <= q < prev.len() && (#[trigger] prev[q]).0 == w;
                assert(outs[q] == prev[q]);
            } else {
                assert(r[m] == outs.last());
                assert(outs[outs.len() - 1].0 == w);
            }
        }
    }
}

/// Consuming only ever removes outputs.
proof fn lemma_consume_shrinks(idx: Seq<EntryView>, id: Seq<u8>, vout: usize)
    ensures
        forall|x: Seq<u8>, w: usize| holds(consume(idx, id, vout), x, w) ==> holds(idx, x, w),
        ids_unique(idx) ==> ids_unique(consume(idx, id, vout)),
        ids_unique(idx) ==> !holds(consume(idx, id, vout), id, vout),
{
    lemma_entry_position(idx, id);
    let r = consume(idx, id, vout);
    match entry_position(idx, id) {
        None => {
            assert forall|k: int| 0 <= k < idx.len() implies (#[trigger] idx[k]).txid != id by {}
        },
        Some(p) => {
            let rest = keep_others(idx[p].outputs, vout);
            lemma_keep_others(idx[p].outputs, vout);
            if rest.len() == 0 {
                assert forall|x: Seq<u8>, w: usize| holds(r, x, w) implies holds(idx, x, w) by {
                    let k = choose|k: int| 0 <= k < r.len() && (#[trigger] r[k]).txid == x && has_index(r[k].outputs, w);
                    if k < p {
                        assert(r[k] == idx[k]);
                    } else {
                        assert(r[k] == idx[k + 1]);
                    }
                }
                if ids_unique(idx) {
                    assert forall|a: int, b: int| 0 <= a < b < r.len() implies (#[trigger] r[a]).txid != (#[trigger] r[b]).txid by {
                        let a2 = if a < p { a } else { a + 1 };
                        let b2 = if b < p { b } else { b + 1 };
                        assert(r[a] == idx[a2]);
                        assert(r[b] == idx[b2]);
                    }
                    assert forall|k: int| 0 <= k < r.len() implies (#[trigger] r[k]).txid != id by {
                        let k2 = if k < p { k } else { k + 1 };
                        assert(r[k] == idx[k2]);
                        assert(idx[k2].txid != idx[p].txid);
                    }
                }
            } else {
                assert forall|x: Seq<u8>, w: usize| holds(r, x, w) implies holds(idx, x, w) by {
                    let k = choose|k: int| 0 <= k < r.len() && (#[trigger] r[k]).txid == x && has_index(r[k].outputs, w);
                    if k != p {
                        assert(r[k] == idx[k]);
                    } else {
                        assert(has_index(idx[p].outputs, w));
                        assert(idx[p].txid == x);
                    }
                }
                if ids_unique(idx) {
                    assert forall|a: int, b: int| 0 <= a < b < r.len() implies (#[trigger] r[a]).txid != (#[trigger] r[b]).txid by {
                        assert(r[a].txid == idx[a].txid);
                        assert(r[b].txid == idx[b].txid);
                    }
                    assert forall|k: int| 0 <= k < r.len() && (#[trigger] r[k]).txid == id implies !has_index(r[k].outputs, vout) by {
                        if k != p {
                            assert(r[k].txid == idx[k].txid);
                            assert(idx[k].txid != idx[p].txid);
                        }
                    }
                }
            }
        },
    }
}

/// Entering outputs under another id adds nothing under `id`.
proof fn lemma_put_other(idx: Seq<EntryView>, id2: Seq<u8>, outs: Seq<(usize, TXOutputView)>, id: Seq<u8>, vout: usize)
    requires
        id2 != id,
    ensures
        holds(put(idx, id2, outs), id, vout) ==> holds(idx, id, vout),
        ids_unique(idx) ==> ids_unique(put(idx, id2, outs)),
{
    lemma_entry_position(idx, id2);
    let r = put(idx, id2, outs);
    if holds(r, id, vout) {
        let k = choose|k: int| 0 <= k < r.len() && (#[trigger] r[k]).txid == id && has_index(r[k].outputs, vout);
        assert(r[k].txid != id2);
        assert(r[k] == idx[k]);
    }
    if ids_unique(idx) {
        assert forall|a: int, b: int| 0 <= a < b < r.len() implies (#[trigger] r[a]).txid != (#[trigger] r[b]).txid by {
            match entry_position(idx, id2) {
                Some(p) => {
                    assert(r[a].txid == idx[a].txid);
                    assert(r[b].txid == idx[b].txid);
                },
                None => {
                    if b < idx.len() {
                        assert(r[a] == idx[a]);
                        assert(r[b] == idx[b]);
                    } else {
                        assert(r[a] == idx[a]);
                    }
                },
            }
        }
    }
}

proof fn lemma_consume_all(idx: Seq<EntryView>, refs: Seq<(Seq<u8>, usize)>, id: Seq<u8>, vout: usize)
    ensures
        holds(consume_all(idx, refs), id, vout) ==> holds(idx, id, vout),
        ids_unique(idx) ==> ids_unique(consume_all(idx, refs)),
        ids_unique(idx) && refs.contains((id, vout)) ==> !holds(consume_all(idx, refs), id, vout),
    decreases refs.len(),
{
    if refs.len() > 0 {
        let prev = consume_all(idx, refs.drop_last());
        lemma_consume_all(idx, refs.drop_last(), id, vout);
        lemma_consume_shrinks(prev, refs.last().0, refs.last().1);
        if refs.contains((id, vout)) && refs.last() != (id, vout) {
            let q = choose|q: int| 0 <= q < refs.len() && refs[q] == (id, vout);
            assert(refs.drop_last()[q] == (id, vout));
        }
    }
}

proof fn lemma_apply_block(idx: Seq<EntryView>, txs: Seq<TransactionView>, id: Seq<u8>, vout: usize)
    requires
        forall|k: int| 0 <= k < txs.len() ==> (#[trigger] txs[k]).id != id,
    ensures
        holds(apply_block(idx, txs), id, vout) ==> holds(idx, id, vout),
        ids_unique(idx) ==> ids_unique(apply_block(idx, txs)),
        ids_unique(idx) && (exists|k: int| 0 <= k < txs.len() && input_refs(#[trigger] txs[k]).contains((id, vout)))
            ==> !holds(apply_block(idx, txs), id, vout),
    decreases txs.len(),
{
    if txs.len() > 0 {
        let prev = apply_block(idx, txs.drop_last());
        let t = txs.last();
        assert(forall|k: int| 0 <= k < txs.drop_last().len() ==> (#[trigger] txs.drop_last()[k]) == txs[k]);
        lemma_apply_block(idx, txs.drop_last(), id, vout);
        let consumed = consume_all(prev, input_refs(t));
        lemma_consume_all(prev, input_refs(t), id, vout);
        assert(t == txs[txs.len() - 1]);
        lemma_put_other(consumed, t.id, all_indexed(t.outputs), id, vout);
        if ids_unique(idx) && (exists|k: int| 0 <= k < txs.len() && input_refs(#[trigger] txs[k]).contains((id, vout))) {
            let k = choose|k: int| 0 <= k < txs.len() && input_refs(#[trigger] txs[k]).contains((id, vout));
            if k < txs.len() - 1 {
                assert(txs.drop_last()[k] == txs[k]);
            }
        }
    }
}

proof fn lemma_apply_blocks(idx: Seq<EntryView>, blocks: Seq<Seq<TransactionView>>, id: Seq<u8>, vout: usize)
    requires
        forall|b: int, k: int| 0 <= b < blocks.len() && 0 <= k < blocks[b].len() ==> (#[trigger] blocks[b][k]).id != id,
    ensures
        holds(apply_blocks(idx, blocks), id, vout) ==> holds(idx, id, vout),
    decreases blocks.len(),
{
    if blocks.len() > 0 {
        let prev = blocks.drop_last();
        assert forall|b: int, k: int| 0 <= b < prev.len() && 0 <= k < prev[b].len() implies (#[trigger] prev[b][k]).id != id by {
            assert(prev[b] == blocks[b]);
        }
        lemma_apply_blocks(idx, prev, id, vout);
        let last = blocks.last();
        assert forall|k: int| 0 <= k < last.len() implies (#[trigger] last[k]).id != id by {
            assert(blocks[blocks.len() - 1][k] == last[k]);
        }
        lemma_apply_block(apply_blocks(idx, prev), last, id, vout);
    }
}

/// Everything the index offers, it holds.
proof fn lemma_index_list_held(idx: Seq<EntryView>, key: Option<Seq<u8>>)
    ensures
        forall|q: int| 0 <= q < index_list(idx, key).len() ==> holds(idx, (#[trigger] index_list(idx, key)[q]).txid, index_list(idx, key)[q].index),
    decreases idx.len(),
{
    if idx.len() > 0 {
        let prev = idx.drop_last();
        lemma_index_list_held(prev, key);
        let e = idx.last();
        let l = index_list(idx, key);
        let lp = index_list(prev, key);
        lemma_entry_unspent_held(e, key, e.outputs.len() as int);
        assert forall|q: int| 0 <= q < l.len() implies holds(idx, (#[trigger] l[q]).txid, l[q].index) by {
            if q < lp.len() {
                assert(l[q] == lp[q]);
                let k = choose|k: int| 0 <= k < prev.len() && (#[trigger] prev[k]).txid == lp[q].txid && has_index(prev[k].outputs, lp[q].index);
                assert(idx[k] == prev[k]);
            } else {
                let eu = entry_unspent(e, key, e.outputs.len() as int);
                assert(l[q] == eu[q - lp.len()]);
                assert(idx[idx.len() - 1] == e);
            }
        }
    }
}

proof fn lemma_entry_unspent_held(e: EntryView, key: Option<Seq<u8>>, n: int)
    requires
        n <= e.outputs.len(),
    ensures
        forall|q: int| 0 <= q < entry_unspent(e, key, n).len() ==> (#[trigger] entry_unspent(e, key, n)[q]).txid == e.txid
            && has_index(e.outputs, entry_unspent(e, key, n)[q].index),
    decreases n,
{
    if n > 0 {
        lemma_entry_unspent_held(e, key, n - 1);
        let l = entry_unspent(e, key, n);
        let lp = entry_unspent(e, key, n - 1);
        assert forall|q: int| 0 <= q < l.len() implies (#[trigger] l[q]).txid == e.txid && has_index(e.outputs, l[q].index) by {
            if q < lp.len() {
                assert(l[q] == lp[q]);
            } else {
                assert(e.outputs[n - 1].0 == l[q].index);
            }
        }
    }
}

/// No double spend: once a block's input has consumed output `vout` of `id`
/// from the index, the first-fit choice never offers that output again, for
/// any key and amount, after that block and any later blocks, so long as
/// none of them holds a transaction whose id is `id` (ids are digests of
/// content).
pub proof fn lemma_no_double_spend(
    idx: Seq<EntryView>,
    block: Seq<TransactionView>,
    later: Seq<Seq<TransactionView>>,
    id: Seq<u8>,
    vout: usize,
    key: Option<Seq<u8>>,
    amount: int,
)
    requires
        ids_unique(idx),
        exists|k: int| 0 <= k < block.len() && input_refs(#[trigger] block[k]).contains((id, vout)),
        forall|k: int| 0 <= k < block.len() ==> (#[trigger] block[k]).id != id,
        forall|b: int, k: int| 0 <= b < later.len() && 0 <= k < later[b].len() ==> (#[trigger] later[b][k]).id != id,
    ensures
        !as_outpoints(selection(index_list(apply_blocks(apply_block(idx, block), later), key), amount)).contains((id, vout)),
{
    let after = apply_block(idx, block);
    lemma_apply_block(idx, block, id, vout);
    lemma_apply_blocks(after, later, id, vout);
    let fin = apply_blocks(after, later);
    let l = index_list(fin, key);
    lemma_index_list_held(fin, key);
    crate::spending::lemma_take_count_bound(l, amount);
    let sel = selection(l, amount);
    if as_outpoints(sel).contains((id, vout)) {
        let q = choose|q: int| 0 <= q < as_outpoints(sel).len() && as_outpoints(sel)[q] == (id, vout);
        assert(sel[q] == l[q]);
        assert(holds(fin, l[q].txid, l[q].index));
    }
}

/// A rebuilt index holds each id at most once.
pub proof fn lemma_build_index_unique(spent: Seq<(Seq<u8>, usize)>, scan: Seq<TransactionView>)
    ensures
        ids_unique(build_index(spent, scan)),
    decreases scan.len(),
{
    if scan.len() > 0 {
        let prev = build_index(spent, scan.drop_last());
        lemma_build_index_unique(spent, scan.drop_last());
        lemma_entry_position(prev, scan.last().id);
    }
}

/// The index that a chain determines holds each id at most once.
pub proof fn lemma_chain_index_unique(bs: Seq<crate::block::BlockView>)
    ensures
        ids_unique(chain_index(bs)),
{
    lemma_build_index_unique(spent_refs(traversal(bs)), traversal(bs));
}

} // verus!

verus! {

/// The total value of an entry's outputs.
pub open spec fn entry_value(outs: Seq<(usize, TXOutputView)>) -> int
    decreases outs.len(),
{
    if outs.len() == 0 {
        0
    } else {
        entry_value(outs.drop_last()) + outs.last().1.value
    }
}

/// The total value the index holds.
pub open spec fn index_total(idx: Seq<EntryView>) -> int
    decreases idx.len(),
{
    if idx.len() == 0 {
        0
    } else {
        index_total(idx.drop_last()) + entry_value(idx.last().outputs)
    }
}

/// The value of the output at position `v` among `outs` (the last one there).
pub open spec fn value_of(outs: Seq<(usize, TXOutputView)>, v: usize) -> int
    decreases outs.len(),
{
    if outs.len() == 0 {
        0
    } else if outs.last().0 == v {
        outs.last().1.value as int
    } else {
        value_of(outs.drop_last(), v)
    }
}

/// No two outputs of an entry share a position.
pub open spec fn positions_distinct(outs: Seq<(usize, TXOutputView)>) -> bool {
    forall|a: int, b: int| 0 <= a < b < outs.len() ==> (#[trigger] outs[a]).0 != (#[trigger] outs[b]).0
}

/// Ids are unique and so are positions within each entry.
pub open spec fn index_ok(idx: Seq<EntryView>) -> bool {
    &&& ids_unique(idx)
    &&& forall|k: int| 0 <= k < idx.len() ==> positions_distinct(#[trigger] idx[k].outputs)
}

/// The value the index holds at output `v` of `id`.
pub open spec fn value_at(idx: Seq<EntryView>, id: Seq<u8>, v: usize) -> int {
    match entry_position(idx, id) {
        Some(p) => value_of(idx[p].outputs, v),
        None => 0,
    }
}

/// The total value held at the given outputs.
pub open spec fn refs_value(idx: Seq<EntryView>, refs: Seq<(Seq<u8>, usize)>) -> int
    decreases refs.len(),
{
    if refs.len() == 0 {
        0
    } else {
        refs_value(idx, refs.drop_last()) + value_at(idx, refs.last().0, refs.last().1)
    }
}

proof fn lemma_index_total_update(idx: Seq<EntryView>, p: int, e: EntryView)
    requires
        0 <= p < idx.len(),
    ensures
        index_total(idx.update(p, e)) == index_total(idx) - entry_value(idx[p].outputs) + entry_value(e.outputs),
    decreases idx.len(),
{
    let u = idx.update(p, e);
    if p == idx.len() - 1 {
        assert(u.drop_last() =~= idx.drop_last());
    } else {
        lemma_index_total_update(idx.drop_last(), p, e);
        assert(u.drop_last() =~= idx.drop_last().update(p, e));
    }
}

proof fn lemma_index_total_remove(idx: Seq<EntryView>, p: int)
    requires
        0 <= p < idx.len(),
    ensures
        index_total(idx.remove(p)) == index_total(idx) - entry_value(idx[p].outputs),
    decreases idx.len(),
{
    let r = idx.remove(p);
    if p == idx.len() - 1 {
        assert(r =~= idx.drop_last());
    } else {
        lemma_index_total_remove(idx.drop_last(), p);
        assert(r.drop_last() =~= idx.drop_last().remove(p));
        assert(r.last() == idx.last());
    }
}

proof fn lemma_keep_others_absent(outs: Seq<(usize, TXOutputView)>, v: usize)
    requires
        !has_index(outs, v),
    ensures
        keep_others(outs, v) == outs,
    decreases outs.len(),
{
    if outs.len() > 0 {
        assert(!has_index(outs.drop_last(), v)) by {
            if has_index(outs.drop_last(), v) {
                let m = choose|m: int| 0 <= m < outs.drop_last().len() && (#[trigger] outs.drop_last()[m]).0 == v;
                assert(outs[m] == outs.drop_last()[m]);
            }
        }
        lemma_keep_others_absent(outs.drop_last(), v);
        assert(outs.last().0 != v) by {
            assert(outs[outs.len() - 1] == outs.last());
        }
        assert(keep_others(outs, v) =~= outs);
    }
}

/// Dropping the output at a held position takes exactly its value away and
/// leaves the other positions and values as they were.
proof fn lemma_keep_others_value(outs: Seq<(usize, TXOutputView)>, v: usize)
    requires
        positions_distinct(outs),
    ensures
        has_index(outs, v) ==> entry_value(keep_others(outs, v)) == entry_value(outs) - value_of(outs, v),
        positions_distinct(keep_others(outs, v)),
        forall|w: usize| w != v ==> (has_index(keep_others(outs, v), w) == has_index(outs, w)),
        forall|w: usize| w != v ==> value_of(keep_others(outs, v), w) == value_of(outs, w),
    decreases outs.len(),
{
    if outs.len() > 0 {
        let prev = outs.drop_last();
        let last = outs.last();
        assert(positions_distinct(prev)) by {
            assert forall|a: int, b: int| 0 <= a < b < prev.len() implies (#[trigger] prev[a]).0 != (#[trigger] prev[b]).0 by {
                assert(prev[a] == outs[a]);
                assert(prev[b] == outs[b]);
            }
        }
        lemma_keep_others_value(prev, v);
        lemma_keep_others(prev, v);
        let kp = keep_others(prev, v);
        let k = keep_others(outs, v);
        assert(!has_index(prev, last.0)) by {
            if has_index(prev, last.0) {
                let m = choose|m: int| 0 <= m < prev.len() && (#[trigger] prev[m]).0 == last.0;
                assert(outs[m] == prev[m]);
                assert(outs[outs.len() - 1] == last);
            }
        }
        assert forall|w: usize| has_index(outs, w) == (has_index(prev, w) || last.0 == w) by {
            if has_index(outs, w) {
                let m = choose|m: int| 0 <= m < outs.len() && (#[trigger] outs[m]).0 == w;
                if m < prev.len() {
                    assert(prev[m] == outs[m]);
                }
            }
            if has_index(prev, w) {
                let m = choose|m: int| 0 <= m < prev.len() && (#[trigger] prev[m]).0 == w;
                assert(outs[m] == prev[m]);
            }
            if last.0 == w {
                assert(outs[outs.len() - 1] == last);
            }
        }
        if last.0 == v {
            assert(k == kp);
            lemma_keep_others_absent(prev, v);
            assert forall|w: usize| w != v implies value_of(k, w) == value_of(outs, w) by {
                assert(value_of(outs, w) == value_of(prev, w));
            }
        } else {
            assert(k == kp.push(last));
            assert(k.drop_last() =~= kp);
            assert(k.last() == last);
            assert forall|w: usize| w != v implies value_of(k, w) == value_of(outs, w) by {
                if last.0 != w {
                    assert(value_of(k, w) == value_of(kp, w));
                    assert(value_of(outs, w) == value_of(prev, w));
                }
            }
            assert forall|a: int, b: int| 0 <= a < b < k.len() implies (#[trigger] k[a]).0 != (#[trigger] k[b]).0 by {
                if b < kp.len() {
                    assert(k[a] == kp[a]);
                    assert(k[b] == kp[b]);
                } else {
                    assert(k[a] == kp[a]);
                    assert(k[b] == last);
                    assert(has_index(kp, kp[a].0));
                    assert(has_index(prev, kp[a].0));
                }
            }
            assert forall|w: usize| w != v implies (has_index(k, w) == (has_index(kp, w) || last.0 == w)) by {
                if has_index(k, w) {
                    let m = choose|m: int| 0 <= m < k.len() && (#[trigger] k[m]).0 == w;
                    if m < kp.len() {
                        assert(kp[m] == k[m]);
                    }
                }
                if has_index(kp, w) {
                    let m = choose|m: int| 0 <= m < kp.len() && (#[trigger] kp[m]).0 == w;
                    assert(k[m] == kp[m]);
                }
                if last.0 == w {
                    assert(k[k.len() - 1] == last);
                }
            }
        }
    }
}

} // verus!

verus! {

proof fn lemma_value_of_absent(outs: Seq<(usize, TXOutputView)>, w: usize)
    requires
        !has_index(outs, w),
    ensures
        value_of(outs, w) == 0,
    decreases outs.len(),
{
    if outs.len() > 0 {
        assert(outs[outs.len() - 1] == outs.last());
        assert(!has_index(outs.drop_last(), w)) by {
            if has_index(outs.drop_last(), w) {
                let m = choose|m: int| 0 <= m < outs.drop_last().len() && (#[trigger] outs.drop_last()[m]).0 == w;
                assert(outs[m] == outs.drop_last()[m]);
            }
        }
        lemma_value_of_absent(outs.drop_last(), w);
    }
}

proof fn lemma_unique_position(idx: Seq<EntryView>, k: int)
    requires
        ids_unique(idx),
        0 <= k < idx.len(),
    ensures
        entry_position(idx, idx[k].txid) == Some(k),
{
    lemma_entry_position(idx, idx[k].txid);
}

/// With unique ids, holding an output means the entry for its id has it.
proof fn lemma_holds_at(idx: Seq<EntryView>, x: Seq<u8>, w: usize)
    requires
        ids_unique(idx),
    ensures
        holds(idx, x, w) == (entry_position(idx, x) matches Some(p) && has_index(idx[p].outputs, w)),
{
    lemma_entry_position(idx, x);
    if holds(idx, x, w) {
        let k = choose|k: int| 0 <= k < idx.len() && (#[trigger] idx[k]).txid == x && has_index(idx[k].outputs, w);
        lemma_unique_position(idx, k);
    }
}

/// Consuming a held output takes exactly its value out of the index and
/// leaves every other output as it was.
proof fn lemma_consume_value(idx: Seq<EntryView>, id: Seq<u8>, v: usize)
    requires
        index_ok(idx),
        holds(idx, id, v),
    ensures
        index_total(consume(idx, id, v)) == index_total(idx) - value_at(idx, id, v),
        index_ok(consume(idx, id, v)),
        forall|x: Seq<u8>, w: usize| (x, w) != (id, v) ==> holds(consume(idx, id, v), x, w) == holds(idx, x, w),
        forall|x: Seq<u8>, w: usize| (x, w) != (id, v) ==> value_at(consume(idx, id, v), x, w) == value_at(idx, x, w),
        forall|x: Seq<u8>| entry_position(idx, x) is None ==> entry_position(consume(idx, id, v), x) is None,
{
    lemma_consume_shrinks(idx, id, v);
    lemma_holds_at(idx, id, v);
    lemma_entry_position(idx, id);
    let p = entry_position(idx, id)->Some_0;
    let outs = idx[p].outputs;
    assert(positions_distinct(outs));
    lemma_keep_others_value(outs, v);
    let rest = keep_others(outs, v);
    let r = consume(idx, id, v);
    if rest.len() == 0 {
        lemma_index_total_remove(idx, p);
        assert(entry_value(rest) == 0);
        assert forall|k: int| 0 <= k < r.len() implies positions_distinct(#[trigger] r[k].outputs) by {
            if k < p {
                assert(r[k] == idx[k]);
            } else {
                assert(r[k] == idx[k + 1]);
            }
        }
    } else {
        lemma_index_total_update(idx, p, EntryView { txid: idx[p].txid, outputs: rest });
        assert forall|k: int| 0 <= k < r.len() implies positions_distinct(#[trigger] r[k].outputs) by {
            if k != p {
                assert(r[k] == idx[k]);
            }
        }
    }
    assert(index_ok(r));
    assert forall|x: Seq<u8>, w: usize| (x, w) != (id, v) implies holds(r, x, w) == holds(idx, x, w)
        && value_at(r, x, w) == value_at(idx, x, w) by {
        lemma_holds_at(idx, x, w);
        lemma_holds_at(r, x, w);
        lemma_entry_position(idx, x);
        lemma_entry_position(r, x);
        if x != id {
            match entry_position(idx, x) {
                Some(q) => {
                    let q2 = if rest.len() == 0 && q > p { q - 1 } else { q };
                    assert(r[q2] == idx[q]);
                    lemma_unique_position(r, q2);
                },
                None => {
                    if entry_position(r, x) is Some {
                        let q2 = entry_position(r, x)->Some_0;
                        let q = if rest.len() == 0 && q2 >= p { q2 + 1 } else { q2 };
                        assert(r[q2] == idx[q]);
                    }
                },
            }
        } else {
            assert(w != v);
            if rest.len() == 0 {
                assert(!has_index(rest, w));
                lemma_value_of_absent(outs, w);
                if entry_position(r, x) is Some {
                    let q2 = entry_position(r, x)->Some_0;
                    let q = if q2 >= p { q2 + 1 } else { q2 };
                    assert(r[q2] == idx[q]);
                    lemma_unique_position(idx, q);
                }
            } else {
                assert(r[p].txid == id);
                lemma_unique_position(r, p);
            }
        }
    }
    assert forall|x: Seq<u8>| entry_position(idx, x) is None implies entry_position(r, x) is None by {
        lemma_entry_position(idx, x);
        lemma_entry_position(r, x);
        if entry_position(r, x) is Some {
            let q2 = entry_position(r, x)->Some_0;
            let q = if rest.len() == 0 && q2 >= p { q2 + 1 } else { q2 };
            assert(r[q2].txid == idx[q].txid);
        }
    }
}

} // verus!

verus! {

/// Consuming distinct held outputs one after another takes exactly their
/// total out of the index and leaves every other output as it was.
proof fn lemma_consume_all_value(idx: Seq<EntryView>, refs: Seq<(Seq<u8>, usize)>)
    requires
        index_ok(idx),
        refs.no_duplicates(),
        forall|i: int| 0 <= i < refs.len() ==> holds(idx, (#[trigger] refs[i]).0, refs[i].1),
    ensures
        index_total(consume_all(idx, refs)) == index_total(idx) - refs_value(idx, refs),
        index_ok(consume_all(idx, refs)),
        forall|x: Seq<u8>, w: usize| !refs.contains((x, w)) ==> holds(consume_all(idx, refs), x, w) == holds(idx, x, w),
        forall|x: Seq<u8>, w: usize| !refs.contains((x, w)) ==> value_at(consume_all(idx, refs), x, w) == value_at(idx, x, w),
        forall|x: Seq<u8>| entry_position(idx, x) is None ==> entry_position(consume_all(idx, refs), x) is None,
    decreases refs.len(),
{
    if refs.len() > 0 {
        let front = refs.drop_last();
        let last = refs.last();
        assert(front.no_duplicates()) by {
            assert forall|a: int, b: int| 0 <= a < front.len() && 0 <= b < front.len() && a != b implies front[a] != front[b] by {
                assert(front[a] == refs[a]);
                assert(front[b] == refs[b]);
            }
        }
        assert forall|i: int| 0 <= i < front.len() implies holds(idx, (#[trigger] front[i]).0, front[i].1) by {
            assert(front[i] == refs[i]);
        }
        lemma_consume_all_value(idx, front);
        let prev = consume_all(idx, front);
        assert(!front.contains(last)) by {
            if front.contains(last) {
                let a = choose|a: int| 0 <= a < front.len() && front[a] == last;
                assert(refs[a] == refs[refs.len() - 1]);
            }
        }
        assert(holds(idx, last.0, last.1)) by {
            assert(refs[refs.len() - 1] == last);
        }
        assert(holds(prev, last.0, last.1));
        lemma_consume_value(prev, last.0, last.1);
        assert forall|x: Seq<u8>, w: usize| !refs.contains((x, w)) implies !front.contains((x, w)) && (x, w) != last by {
            if front.contains((x, w)) {
                let a = choose|a: int| 0 <= a < front.len() && front[a] == (x, w);
                assert(refs[a] == front[a]);
            }
            if (x, w) == last {
                assert(refs[refs.len() - 1] == last);
            }
        }
    }
}

proof fn lemma_all_indexed_value(outs: Seq<TXOutputView>)
    requires
        outs.len() <= usize::MAX,
    ensures
        entry_value(all_indexed(outs)) == crate::transactions::outputs_value(outs),
        positions_distinct(all_indexed(outs)),
    decreases outs.len(),
{
    if outs.len() > 0 {
        lemma_all_indexed_value(outs.drop_last());
        assert(all_indexed(outs).drop_last() =~= all_indexed(outs.drop_last()));
    }
    let s = all_indexed(outs);
    assert forall|a: int, b: int| 0 <= a < b < s.len() implies (#[trigger] s[a]).0 != (#[trigger] s[b]).0 by {
        assert(s[a].0 == a as usize);
        assert(s[b].0 == b as usize);
    }
}

/// Conservation in the index: applying a transaction whose inputs consume
/// distinct outputs that the index holds, under an id the index does not
/// hold, changes the index's total by what its outputs carry less what its
/// inputs consume. So a transfer whose outputs carry what it spends leaves
/// the total unchanged, and a coinbase adds exactly what it mints.
pub proof fn lemma_index_conservation(idx: Seq<EntryView>, t: TransactionView)
    requires
        index_ok(idx),
        t.outputs.len() <= usize::MAX,
        entry_position(idx, t.id) is None,
        input_refs(t).no_duplicates(),
        forall|i: int| 0 <= i < input_refs(t).len() ==> holds(idx, (#[trigger] input_refs(t)[i]).0, input_refs(t)[i].1),
    ensures
        index_total(apply_transaction(idx, t)) == index_total(idx) - refs_value(idx, input_refs(t))
            + crate::transactions::outputs_value(t.outputs),
        index_ok(apply_transaction(idx, t)),
{
    let refs = input_refs(t);
    lemma_consume_all_value(idx, refs);
    let consumed = consume_all(idx, refs);
    assert(entry_position(consumed, t.id) is None);
    lemma_all_indexed_value(t.outputs);
    let r = apply_transaction(idx, t);
    let e = EntryView { txid: t.id, outputs: all_indexed(t.outputs) };
    assert(r == consumed.push(e));
    assert(r.drop_last() =~= consumed);
    lemma_entry_position(consumed, t.id);
    assert forall|a: int, b: int| 0 <= a < b < r.len() implies (#[trigger] r[a]).txid != (#[trigger] r[b]).txid by {
        assert(r[a] == consumed[a]);
        if b < consumed.len() {
            assert(r[b] == consumed[b]);
        }
    }
    assert forall|k: int| 0 <= k < r.len() implies positions_distinct(#[trigger] r[k].outputs) by {
        if k < consumed.len() {
            assert(r[k] == consumed[k]);
        }
    }
}

} // verus!

verus! {

/// A transaction that may be folded into `idx` without creating or losing
/// value: a new id, distinct inputs that the index holds, and (unless it is a
/// coinbase) outputs that carry exactly what its inputs consume.
pub open spec fn admissible(idx: Seq<EntryView>, t: TransactionView) -> bool {
    &&& entry_position(idx, t.id) is None
    &&& t.outputs.len() <= usize::MAX
    &&& input_refs(t).no_duplicates()
    &&& forall|i: int| 0 <= i < input_refs(t).len() ==> holds(idx, (#[trigger] input_refs(t)[i]).0, input_refs(t)[i].1)
    &&& !is_coinbase_view(t) ==> crate::transactions::outputs_value(t.outputs) == refs_value(idx, input_refs(t))
}

/// Each transaction of the block is admissible at its turn.
pub open spec fn block_admissible(idx: Seq<EntryView>, txs: Seq<TransactionView>) -> bool {
    forall|k: int| 0 <= k < txs.len() ==> admissible(apply_block(idx, txs.subrange(0, k)), #[trigger] txs[k])
}

/// What the coinbases of a block mint.
pub open spec fn minted(txs: Seq<TransactionView>) -> int
    decreases txs.len(),
{
    if txs.len() == 0 {
        0
    } else {
        minted(txs.drop_last()) + if is_coinbase_view(txs.last()) {
            crate::transactions::outputs_value(txs.last().outputs)
        } else {
            0
        }
    }
}

/// What the coinbases of several blocks mint.
pub open spec fn minted_all(blocks: Seq<Seq<TransactionView>>) -> int
    decreases blocks.len(),
{
    if blocks.len() == 0 {
        0
    } else {
        minted_all(blocks.drop_last()) + minted(blocks.last())
    }
}

/// Folding in a block of admissible transactions adds to the index exactly
/// what its coinbases mint.
pub proof fn lemma_block_conservation(idx: Seq<EntryView>, txs: Seq<TransactionView>)
    requires
        index_ok(idx),
        block_admissible(idx, txs),
    ensures
        index_total(apply_block(idx, txs)) == index_total(idx) + minted(txs),
        index_ok(apply_block(idx, txs)),
    decreases txs.len(),
{
    if txs.len() > 0 {
        let front = txs.drop_last();
        assert forall|k: int| 0 <= k < front.len() implies admissible(apply_block(idx, front.subrange(0, k)), #[trigger] front[k]) by {
            assert(front.subrange(0, k) =~= txs.subrange(0, k));
            assert(front[k] == txs[k]);
        }
        lemma_block_conservation(idx, front);
        let n = txs.len() - 1;
        assert(txs.subrange(0, n) =~= front);
        assert(admissible(apply_block(idx, txs.subrange(0, n)), txs[n]));
        assert(txs[n] == txs.last());
        let prev = apply_block(idx, front);
        lemma_index_conservation(prev, txs.last());
        if is_coinbase_view(txs.last()) {
            assert(input_refs(txs.last()).len() == 0);
            assert(refs_value(prev, input_refs(txs.last())) == 0);
        }
    }
}

/// Conservation: starting from an empty index and folding in blocks of
/// admissible transactions, the value the index holds is exactly what the
/// coinbases have minted.
pub proof fn lemma_supply_is_minted(blocks: Seq<Seq<TransactionView>>)
    requires
        forall|b: int| 0 <= b < blocks.len() ==> block_admissible(
            apply_blocks(Seq::empty(), blocks.subrange(0, b)),
            #[trigger] blocks[b],
        ),
    ensures
        index_total(apply_blocks(Seq::empty(), blocks)) == minted_all(blocks),
        index_ok(apply_blocks(Seq::empty(), blocks)),
    decreases blocks.len(),
{
    if blocks.len() == 0 {
        assert(index_ok(Seq::<EntryView>::empty()));
    } else {
        let front = blocks.drop_last();
        assert forall|b: int| 0 <= b < front.len() implies block_admissible(
            apply_blocks(Seq::empty(), front.subrange(0, b)),
            #[trigger] front[b],
        ) by {
            assert(front.subrange(0, b) =~= blocks.subrange(0, b));
            assert(front[b] == blocks[b]);
        }
        lemma_supply_is_minted(front);
        let n = blocks.len() - 1;
        assert(blocks.subrange(0, n) =~= front);
        assert(blocks[n] == blocks.last());
        lemma_block_conservation(apply_blocks(Seq::empty(), front), blocks.last());
    }
}

} // verus!

verus! {

/// Consuming an output keeps ids unique and positions distinct.
proof fn lemma_consume_ok(idx: Seq<EntryView>, id: Seq<u8>, v: usize)
    requires
        index_ok(idx),
    ensures
        index_ok(consume(idx, id, v)),
{
    lemma_consume_shrinks(idx, id, v);
    lemma_entry_position(idx, id);
    let r = consume(idx, id, v);
    match entry_position(idx, id) {
        None => {},
        Some(p) => {
            assert(positions_distinct(idx[p].outputs));
            lemma_keep_others_value(idx[p].outputs, v);
            let rest = keep_others(idx[p].outputs, v);
            assert forall|k: int| 0 <= k < r.len() implies positions_distinct(#[trigger] r[k].outputs) by {
                if rest.len() == 0 {
                    if k < p {
                        assert(r[k] == idx[k]);
                    } else {
                        assert(r[k] == idx[k + 1]);
                    }
                } else if k != p {
                    assert(r[k] == idx[k]);
                }
            }
        },
    }
}

/// Entering outputs at distinct positions keeps ids unique and positions
/// distinct.
proof fn lemma_put_ok(idx: Seq<EntryView>, id: Seq<u8>, outs: Seq<(usize, TXOutputView)>)
    requires
        index_ok(idx),
        positions_distinct(outs),
    ensures
        index_ok(put(idx, id, outs)),
{
    assert(id.push(0u8).len() != id.len());
    lemma_put_other(idx, id, outs, id.push(0u8), 0);
    let r = put(idx, id, outs);
    let e = EntryView { txid: id, outputs: outs };
    lemma_entry_position(idx, id);
    match entry_position(idx, id) {
        Some(p) => {
            assert forall|k: int| 0 <= k < r.len() implies positions_distinct(#[trigger] r[k].outputs) by {
                if k != p {
                    assert(r[k] == idx[k]);
                } else {
                    assert(r[k] == e);
                }
            }
        },
        None => {
            assert forall|k: int| 0 <= k < r.len() implies positions_distinct(#[trigger] r[k].outputs) by {
                if k < idx.len() {
                    assert(r[k] == idx[k]);
                } else {
                    assert(r[k] == e);
                }
            }
        },
    }
}

} // verus!

verus! {

proof fn lemma_entry_unspent_from(e: EntryView, key: Option<Seq<u8>>, n: int)
    requires
        0 <= n <= e.outputs.len(),
        positions_distinct(e.outputs),
    ensures
        forall|q: int| 0 <= q < entry_unspent(e, key, n).len() ==> exists|m: int| 0 <= m < n && e.outputs[m].0
            == (#[trigger] entry_unspent(e, key, n)[q]).index,
        forall|a: int, b: int| 0 <= a < b < entry_unspent(e, key, n).len() ==> (#[trigger] entry_unspent(e, key, n)[a]).index
            != (#[trigger] entry_unspent(e, key, n)[b]).index,
    decreases n,
{
    if n > 0 {
        lemma_entry_unspent_from(e, key, n - 1);
        let l = entry_unspent(e, key, n);
        let lp = entry_unspent(e, key, n - 1);
        assert forall|q: int| 0 <= q < l.len() implies exists|m: int| 0 <= m < n && e.outputs[m].0 == (#[trigger] l[q]).index by {
            if q < lp.len() {
                assert(l[q] == lp[q]);
                let m = choose|m: int| 0 <= m < n - 1 && e.outputs[m].0 == (#[trigger] lp[q]).index;
                assert(e.outputs[m].0 == l[q].index);
            } else {
                assert(e.outputs[n - 1].0 == l[q].index);
            }
        }
        assert forall|a: int, b: int| 0 <= a < b < l.len() implies (#[trigger] l[a]).index != (#[trigger] l[b]).index by {
            if b < lp.len() {
                assert(l[a] == lp[a]);
                assert(l[b] == lp[b]);
            } else {
                assert(l[a] == lp[a]);
                assert(l[b].index == e.outputs[n - 1].0);
                let m = choose|m: int| 0 <= m < n - 1 && e.outputs[m].0 == (#[trigger] lp[a]).index;
                assert(e.outputs[m].0 != e.outputs[n - 1].0);
            }
        }
    }
}

/// A well-formed index offers no output twice: no two entries of what it
/// holds name the same position of the same transaction.
pub proof fn lemma_index_list_no_repeats(idx: Seq<EntryView>, key: Option<Seq<u8>>)
    requires
        index_ok(idx),
    ensures
        as_outpoints(index_list(idx, key)).no_duplicates(),
    decreases idx.len(),
{
    let l = index_list(idx, key);
    if idx.len() > 0 {
        let prev = idx.drop_last();
        assert(index_ok(prev)) by {
            assert forall|a: int, b: int| 0 <= a < b < prev.len() implies (#[trigger] prev[a]).txid != (#[trigger] prev[b]).txid by {
                assert(prev[a] == idx[a]);
                assert(prev[b] == idx[b]);
            }
            assert forall|k: int| 0 <= k < prev.len() implies positions_distinct(#[trigger] prev[k].outputs) by {
                assert(prev[k] == idx[k]);
            }
        }
        lemma_index_list_no_repeats(prev, key);
        lemma_index_list_held(prev, key);
        let e = idx.last();
        assert(idx[idx.len() - 1] == e);
        lemma_entry_unspent_from(e, key, e.outputs.len() as int);
        let lp = index_list(prev, key);
        let eu = entry_unspent(e, key, e.outputs.len() as int);
        assert(l == lp + eu);
        assert forall|a: int, b: int| 0 <= a < as_outpoints(l).len() && 0 <= b < as_outpoints(l).len() && a != b implies as_outpoints(l)[a]
            != as_outpoints(l)[b] by {
            let (x, y) = if a < b { (a, b) } else { (b, a) };
            if y < lp.len() {
                assert(as_outpoints(lp)[x] == as_outpoints(l)[x]);
                assert(as_outpoints(lp)[y] == as_outpoints(l)[y]);
            } else if x >= lp.len() {
                assert(l[x] == eu[x - lp.len()]);
                assert(l[y] == eu[y - lp.len()]);
            } else {
                assert(l[x] == lp[x]);
                assert(l[y] == eu[y - lp.len()]);
                assert(eu[y - lp.len()].txid == e.txid) by {
                    lemma_entry_unspent_held(e, key, e.outputs.len() as int);
                }
                assert(holds(prev, lp[x].txid, lp[x].index));
                let k = choose|k: int| 0 <= k < prev.len() && (#[trigger] prev[k]).txid == lp[x].txid && has_index(prev[k].outputs, lp[x].index);
                assert(prev[k] == idx[k]);
            }
        }
    }
}

/// The first-fit choice from a well-formed index names no output twice.
pub proof fn lemma_selection_no_repeats(idx: Seq<EntryView>, key: Option<Seq<u8>>, amount: int)
    requires
        index_ok(idx),
    ensures
        as_outpoints(selection(index_list(idx, key), amount)).no_duplicates(),
{
    lemma_index_list_no_repeats(idx, key);
    let l = index_list(idx, key);
    crate::spending::lemma_take_count_bound(l, amount);
    let s = selection(l, amount);
    assert forall|a: int, b: int| 0 <= a < as_outpoints(s).len() && 0 <= b < as_outpoints(s).len() && a != b implies as_outpoints(s)[a]
        != as_outpoints(s)[b] by {
        assert(as_outpoints(s)[a] == as_outpoints(l)[a]);
        assert(as_outpoints(s)[b] == as_outpoints(l)[b]);
    }
}

} // verus!
