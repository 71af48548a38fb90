//! Which outputs are still unspent, and the first-fit choice of outputs that
//! covers an amount.
use vstd::prelude::*;
use crate::functions::bytes_equal;
use crate::transactions::{
    Transaction, TransactionView, TXInputView, TXOutput, TXOutputView, is_coinbase_view,
    transactions_view, lemma_map_push,
};

verus! {

/// A reference to output `index` of transaction `txid`.
#[derive(Debug, Clone)]
pub struct OutPoint {
    pub txid: Vec<u8>,
    pub index: usize,
}

/// An unspent output together with where it sits.
#[derive(Debug, Clone)]
pub struct UnspentOutput {
    pub txid: Vec<u8>,
    pub index: usize,
    pub output: TXOutput,
}

pub struct UnspentView {
    pub txid: Seq<u8>,
    pub index: usize,
    pub output: TXOutputView,
}

impl View for OutPoint {
    type V = (Seq<u8>, usize);

    open spec fn view(&self) -> (Seq<u8>, usize) {
        (self.txid@, self.index)
    }
}

impl View for UnspentOutput {
    type V = UnspentView;

    open spec fn view(&self) -> UnspentView {
        UnspentView { txid: self.txid@, index: self.index, output: self.output@ }
    }
}

pub open spec fn outpoints_view(s: Seq<OutPoint>) -> Seq<(Seq<u8>, usize)> {
    s.map_values(|p: OutPoint| p@)
}

pub open spec fn unspent_view(s: Seq<UnspentOutput>) -> Seq<UnspentView> {
    s.map_values(|u: UnspentOutput| u@)
}

/// The outputs that a transaction's inputs consume; a coinbase consumes none.
pub open spec fn input_refs(t: TransactionView) -> Seq<(Seq<u8>, usize)> {
    if is_coinbase_view(t) {
        Seq::empty()
    } else {
        t.inputs.map_values(|i: TXInputView| (i.txid, i.vout))
    }
}

/// The outputs consumed by any input among `txs`.
pub open spec fn spent_refs(txs: Seq<TransactionView>) -> Seq<(Seq<u8>, usize)>
    decreases txs.len(),
{
    if txs.len() == 0 {
        Seq::empty()
    } else {
        spent_refs(txs.drop_last()) + input_refs(txs.last())
    }
}

/// An output that can be spent by the holder of `key` (by anyone, for
/// `None`): it has a positive value and is locked to that key.
pub open spec fn spendable(o: TXOutputView, key: Option<Seq<u8>>) -> bool {
    &&& o.value > 0
    &&& match key {
        Some(h) => o.pub_key_hash == h,
        None => true,
    }
}

/// The unspent, spendable outputs among the first `n` outputs of `t`.
pub open spec fn tx_unspent(spent: Seq<(Seq<u8>, usize)>, t: TransactionView, key: Option<Seq<u8>>, n: int) -> Seq<UnspentView>
    decreases n,
{
    if n <= 0 {
        Seq::empty()
    } else {
        tx_unspent(spent, t, key, n - 1) + if spendable(t.outputs[n - 1], key) && !spent.contains(
            (t.id, (n - 1) as usize),
        ) {
            seq![UnspentView { txid: t.id, index: (n - 1) as usize, output: t.outputs[n - 1] }]
        } else {
            Seq::empty()
        }
    }
}

/// The unspent, spendable outputs of the transactions in `scan`, in order.
pub open spec fn unspent_list(spent: Seq<(Seq<u8>, usize)>, scan: Seq<TransactionView>, key: Option<Seq<u8>>) -> Seq<UnspentView>
    decreases scan.len(),
{
    if scan.len() == 0 {
        Seq::empty()
    } else {
        unspent_list(spent, scan.drop_last(), key) + tx_unspent(
            spent,
            scan.last(),
            key,
            scan.last().outputs.len() as int,
        )
    }
}

/// The transactions of `scan` that hold at least one such output, in order.
pub open spec fn with_unspent(spent: Seq<(Seq<u8>, usize)>, scan: Seq<TransactionView>, key: Option<Seq<u8>>) -> Seq<TransactionView>
    decreases scan.len(),
{
    if scan.len() == 0 {
        Seq::empty()
    } else {
        with_unspent(spent, scan.drop_last(), key) + if tx_unspent(
            spent,
            scan.last(),
            key,
            scan.last().outputs.len() as int,
        ).len() > 0 {
            seq![scan.last()]
        } else {
            Seq::empty()
        }
    }
}

/// How many outputs, taken from the front, the first-fit choice uses: it
/// stops as soon as their values reach `amount`.
pub open spec fn take_count(l: Seq<UnspentView>, amount: int) -> nat
    decreases l.len(),
{
    if l.len() == 0 || amount <= 0 {
        0
    } else {
        1 + take_count(l.drop_first(), amount - l[0].output.value)
    }
}

/// The total value of a list of outputs.
pub open spec fn value_sum(l: Seq<UnspentView>) -> int
    decreases l.len(),
{
    if l.len() == 0 {
        0
    } else {
        value_sum(l.drop_last()) + l.last().output.value
    }
}

/// The outputs that the first-fit choice takes.
pub open spec fn selection(l: Seq<UnspentView>, amount: int) -> Seq<UnspentView> {
    l.subrange(0, take_count(l, amount) as int)
}

pub open spec fn as_outpoints(l: Seq<UnspentView>) -> Seq<(Seq<u8>, usize)> {
    l.map_values(|u: UnspentView| (u.txid, u.index))
}

pub proof fn lemma_take_count_bound(l: Seq<UnspentView>, amount: int)
    ensures
        take_count(l, amount) <= l.len(),
    decreases l.len(),
{
    if l.len() > 0 && amount > 0 {
        lemma_take_count_bound(l.drop_first(), amount - l[0].output.value);
    }
}

/// The outputs consumed by the inputs of `txs`.
pub fn collect_spent_refs(txs: &Vec<Transaction>) -> (r: Vec<OutPoint>)
    ensures
        outpoints_view(r@) == spent_refs(transactions_view(txs@)),
{
    let ghost all = transactions_view(txs@);
    let mut refs: Vec<OutPoint> = Vec::new();
    let mut i: usize = 0;
    while i < txs.len()
        invariant
            i <= txs@.len(),
            all == transactions_view(txs@),
            outpoints_view(refs@) == spent_refs(all.subrange(0, i as int)),
        decreases txs@.len() - i,
    {
        let t = &txs[i];
        let ghost base = refs@;
        assert(all.subrange(0, i + 1).drop_last() =~= all.subrange(0, i as int));
        assert(all.subrange(0, i + 1).last() == t@);
        if !t.is_coinbase() {
            let mut j: usize = 0;
            while j < t.inputs.len()
                invariant
                    j <= t.inputs@.len(),
                    outpoints_view(refs@) == outpoints_view(base) + t@.inputs.map_values(
                        |x: TXInputView| (x.txid, x.vout),
                    ).subrange(0, j as int),
                decreases t.inputs@.len() - j,
            {
                let ghost before = refs@;
                let p = OutPoint { txid: t.inputs[j].txid.clone(), index: t.inputs[j].vout };
                refs.push(p);
                proof {
                    lemma_map_push(before, p, |x: OutPoint| x@);
                    assert(t@.inputs[j as int] == t.inputs@[j as int]@);
                }
                j = j + 1;
                assert(outpoints_view(refs@) =~= outpoints_view(base) + t@.inputs.map_values(
                    |x: TXInputView| (x.txid, x.vout),
                ).subrange(0, j as int));
            }
            assert(t@.inputs.map_values(|x: TXInputView| (x.txid, x.vout)).subrange(0, j as int)
                =~= input_refs(t@));
        } else {
            assert(outpoints_view(refs@) =~= outpoints_view(base) + input_refs(t@));
        }
        i = i + 1;
    }
    assert(all.subrange(0, i as int) =~= all);
    refs
}

/// Whether output `index` of transaction `txid` is among `refs`.
pub fn contains_ref(refs: &Vec<OutPoint>, txid: &Vec<u8>, index: usize) -> (r: bool)
    ensures
        r == outpoints_view(refs@).contains((txid@, index)),
{
    let mut i: usize = 0;
    while i < refs.len()
        invariant
            i <= refs@.len(),
            forall|k: int| 0 <= k < i ==> outpoints_view(refs@)[k] != (txid@, index),
        decreases refs@.len() - i,
    {
        if refs[i].index == index && bytes_equal(&refs[i].txid, txid) {
            assert(outpoints_view(refs@)[i as int] == (txid@, index));
            return true;
        }
        i = i + 1;
    }
    false
}

/// The unspent outputs of `txs` spendable under `key`, given the outputs
/// that are consumed.
pub fn collect_unspent(txs: &Vec<Transaction>, refs: &Vec<OutPoint>, key: Option<&Vec<u8>>) -> (r: Vec<UnspentOutput>)
    ensures
        unspent_view(r@) == unspent_list(outpoints_view(refs@), transactions_view(txs@), key_view(key)),
        forall|k: int| 0 <= k < r@.len() ==> (#[trigger] r@[k]).output.value > 0,
{
    let ghost all = transactions_view(txs@);
    let ghost spent = outpoints_view(refs@);
    let ghost k = key_view(key);
    let mut out: Vec<UnspentOutput> = Vec::new();
    let mut i: usize = 0;
    while i < txs.len()
        invariant
            i <= txs@.len(),
            all == transactions_view(txs@),
            spent == outpoints_view(refs@),
            k == key_view(key),
            unspent_view(out@) == unspent_list(spent, all.subrange(0, i as int), k),
            forall|m: int| 0 <= m < out@.len() ==> (#[trigger] out@[m]).output.value > 0,
        decreases txs@.len() - i,
    {
        let t = &txs[i];
        let ghost base = out@;
        assert(all.subrange(0, i + 1).drop_last() =~= all.subrange(0, i as int));
        assert(all.subrange(0, i + 1).last() == t@);
        let mut j: usize = 0;
        while j < t.outputs.len()
            invariant
                j <= t.outputs@.len(),
                spent == outpoints_view(refs@),
                k == key_view(key),
                unspent_view(out@) == unspent_view(base) + tx_unspent(spent, t@, k, j as int),
                forall|m: int| 0 <= m < out@.len() ==> (#[trigger] out@[m]).output.value > 0,
            decreases t.outputs@.len() - j,
        {
            let o = &t.outputs[j];
            assert(t@.outputs[j as int] == o@);
            let locked = match key {
                Some(h) => o.is_locked_with_key(h),
                None => true,
            };
            if o.value > 0 && locked && !contains_ref(refs, &t.id, j) {
                let ghost before = out@;
                let u = UnspentOutput { txid: t.id.clone(), index: j, output: o.copy() };
                out.push(u);
                proof {
                    lemma_map_push(before, u, |x: UnspentOutput| x@);
                }
            }
            j = j + 1;
            assert(unspent_view(out@) =~= unspent_view(base) + tx_unspent(spent, t@, k, j as int));
        }
        i = i + 1;
        assert(unspent_view(out@) =~= unspent_list(spent, all.subrange(0, i as int), k));
    }
    assert(all.subrange(0, i as int) =~= all);
    out
}

pub open spec fn key_view(key: Option<&Vec<u8>>) -> Option<Seq<u8>> {
    match key {
        Some(h) => Some(h@),
        None => None,
    }
}

/// The first-fit choice over `list`: outputs are taken from the front until
/// their total reaches `amount`; returns the total and the outputs taken.
pub fn select_first_fit(list: &Vec<UnspentOutput>, amount: i32) -> (r: (i64, Vec<OutPoint>))
    requires
        forall|k: int| 0 <= k < list@.len() ==> (#[trigger] list@[k]).output.value > 0,
    ensures
        r.0 == value_sum(selection(unspent_view(list@), amount as int)),
        outpoints_view(r.1@) == as_outpoints(selection(unspent_view(list@), amount as int)),
        0 <= r.0,
        amount > 0 ==> r.0 < amount + 0x8000_0000,
{
    let ghost l = unspent_view(list@);
    let mut acc: i64 = 0;
    let mut chosen: Vec<OutPoint> = Vec::new();
    let mut i: usize = 0;
    proof {
        lemma_take_count_bound(l, amount as int);
        assert(l.subrange(0, l.len() as int) =~= l);
    }
    while i < list.len() && acc < amount as i64
        invariant
            i <= list@.len(),
            l == unspent_view(list@),
            forall|k: int| 0 <= k < list@.len() ==> (#[trigger] list@[k]).output.value > 0,
            0 <= acc,
            i > 0 ==> acc < amount + 0x8000_0000,
            i == 0 ==> acc == 0,
            acc == value_sum(l.subrange(0, i as int)),
            outpoints_view(chosen@) == as_outpoints(l.subrange(0, i as int)),
            take_count(l, amount as int) == i + take_count(l.subrange(i as int, l.len() as int), amount - acc),
        decreases list@.len() - i,
    {
        let ghost rest = l.subrange(i as int, l.len() as int);
        assert(rest.drop_first() =~= l.subrange(i + 1, l.len() as int));
        assert(rest[0] == list@[i as int]@);
        let v = list[i].output.value;
        acc = acc + v as i64;
        let ghost before = chosen@;
        let p = OutPoint { txid: list[i].txid.clone(), index: list[i].index };
        chosen.push(p);
        proof {
            lemma_map_push(before, p, |x: OutPoint| x@);
        }
        i = i + 1;
        assert(l.subrange(0, i as int).drop_last() =~= l.subrange(0, i - 1));
        assert(outpoints_view(chosen@) =~= as_outpoints(l.subrange(0, i as int)));
    }
    proof {
        let rest = l.subrange(i as int, l.len() as int);
        if i == list.len() {
            assert(rest.len() == 0);
        }
        assert(take_count(rest, amount - acc) == 0);
    }
    (acc, chosen)
}

} // verus!
