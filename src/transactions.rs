//! Value transfers: inputs that spend earlier outputs, outputs locked to a key
//! hash, and the transaction that binds them under a content-derived id.
use vstd::prelude::*;
use crate::crypto::{sha3_256, sha3_256_of, ecdsa_p256_accepts, ecdsa_sign_doc, ecdsa_verify, pkcs8_public_key};
use crate::encoding::{bytes_field, u64_le, i32_le, push_bytes, push_u64, push_i32};
use crate::errors::LedgerError;
use crate::functions::{address_to_pubkeyhash, decode_address, publicKey_to_hash, pubkey_hash_of, bytes_equal};
use crate::block_chain::{BlockChain, chain_unspent};
use crate::spending::{UnspentView, outpoints_view, as_outpoints, selection, value_sum};
use crate::wallet::{Wallets, wallet_position};
use crate::SUBSIDY;

verus! {

/// The output index that marks a coinbase input: it refers to no real output.
pub const COINBASE_VOUT: usize = usize::MAX - 1;

/// A reference to an earlier output, with the signature that unlocks it.
#[derive(Debug, Clone)]
pub struct TXInput {
    pub txid: Vec<u8>,
    pub vout: usize,
    pub signature: Vec<u8>,
    pub pub_key: Vec<u8>,
}

/// A value locked to the hash of a public key.
#[derive(Debug, Clone)]
pub struct TXOutput {
    pub value: i32,
    pub pub_key_hash: Vec<u8>,
}

/// A transfer: the outputs it spends and the outputs it creates.
#[derive(Debug, Clone)]
pub struct Transaction {
    pub id: Vec<u8>,
    pub inputs: Vec<TXInput>,
    pub outputs: Vec<TXOutput>,
}

pub struct TXInputView {
    pub txid: Seq<u8>,
    pub vout: usize,
    pub signature: Seq<u8>,
    pub pub_key: Seq<u8>,
}

pub struct TXOutputView {
    pub value: i32,
    pub pub_key_hash: Seq<u8>,
}

pub struct TransactionView {
    pub id: Seq<u8>,
    pub inputs: Seq<TXInputView>,
    pub outputs: Seq<TXOutputView>,
}

impl View for TXInput {
    type V = TXInputView;

    open spec fn view(&self) -> TXInputView {
        TXInputView {
            txid: self.txid@,
            vout: self.vout,
            signature: self.signature@,
            pub_key: self.pub_key@,
        }
    }
}

impl View for TXOutput {
    type V = TXOutputView;

    open spec fn view(&self) -> TXOutputView {
        TXOutputView { value: self.value, pub_key_hash: self.pub_key_hash@ }
    }
}

/// Mapping over a sequence commutes with pushing onto it.
pub proof fn lemma_map_push<A, B>(s: Seq<A>, x: A, f: spec_fn(A) -> B)
    ensures
        s.push(x).map_values(f) == s.map_values(f).push(f(x)),
{
    assert(s.push(x).map_values(f) =~= s.map_values(f).push(f(x)));
}

pub open spec fn inputs_view(s: Seq<TXInput>) -> Seq<TXInputView> {
    s.map_values(|i: TXInput| i@)
}

pub open spec fn outputs_view(s: Seq<TXOutput>) -> Seq<TXOutputView> {
    s.map_values(|o: TXOutput| o@)
}

impl View for Transaction {
    type V = TransactionView;

    open spec fn view(&self) -> TransactionView {
        TransactionView {
            id: self.id@,
            inputs: inputs_view(self.inputs@),
            outputs: outputs_view(self.outputs@),
        }
    }
}

/// A coinbase has exactly one input, which names no transaction and carries
/// the reserved output index.
pub open spec fn is_coinbase_view(t: TransactionView) -> bool {
    &&& t.inputs.len() == 1
    &&& t.inputs[0].txid.len() == 0
    &&& t.inputs[0].vout == COINBASE_VOUT
}

pub open spec fn input_bytes(i: TXInputView) -> Seq<u8> {
    bytes_field(i.txid) + u64_le(i.vout as u64) + bytes_field(i.signature) + bytes_field(i.pub_key)
}

pub open spec fn output_bytes(o: TXOutputView) -> Seq<u8> {
    i32_le(o.value) + bytes_field(o.pub_key_hash)
}

pub open spec fn inputs_bytes(s: Seq<TXInputView>) -> Seq<u8>
    decreases s.len(),
{
    if s.len() == 0 {
        Seq::empty()
    } else {
        inputs_bytes(s.drop_last()) + input_bytes(s.last())
    }
}

pub open spec fn outputs_bytes(s: Seq<TXOutputView>) -> Seq<u8>
    decreases s.len(),
{
    if s.len() == 0 {
        Seq::empty()
    } else {
        outputs_bytes(s.drop_last()) + output_bytes(s.last())
    }
}

/// The encoding of a transaction: its id, then its inputs and its outputs,
/// each list preceded by its length.
pub open spec fn transaction_bytes(t: TransactionView) -> Seq<u8> {
    bytes_field(t.id) + u64_le(t.inputs.len() as u64) + inputs_bytes(t.inputs) + u64_le(
        t.outputs.len() as u64,
    ) + outputs_bytes(t.outputs)
}

/// The digest that names a transaction.
pub open spec fn transaction_digest(t: TransactionView) -> Seq<u8> {
    sha3_256_of(transaction_bytes(t))
}

/// The coinbase minting the subsidy to `to_hash` with payload `data`.
pub open spec fn coinbase_view(to_hash: Seq<u8>, data: Seq<u8>) -> TransactionView {
    let inputs = seq![TXInputView { txid: Seq::empty(), vout: COINBASE_VOUT, signature: Seq::empty(), pub_key: data }];
    let outputs = seq![TXOutputView { value: SUBSIDY, pub_key_hash: to_hash }];
    TransactionView {
        id: transaction_digest(TransactionView { id: Seq::empty(), inputs, outputs }),
        inputs,
        outputs,
    }
}

/// A transaction with an empty id, named by the digest of that form.
pub open spec fn with_content_id(id: Seq<u8>, inputs: Seq<TXInputView>, outputs: Seq<TXOutputView>) -> bool {
    id == transaction_digest(TransactionView { id: Seq::empty(), inputs, outputs })
}

impl TXInput {
    /// A copy equal to this input.
    pub fn copy(&self) -> (r: TXInput)
        ensures
            r@ == self@,
    {
        TXInput {
            txid: self.txid.clone(),
            vout: self.vout,
            signature: self.signature.clone(),
            pub_key: self.pub_key.clone(),
        }
    }

    /// Whether the public key carried by this input hashes to `pub_key_hash`.
    pub fn uses_key(&self, pub_key_hash: &Vec<u8>) -> (r: bool)
        ensures
            r == (pubkey_hash_of(self.pub_key@) == pub_key_hash@),
    {
        let locking_hash = publicKey_to_hash(&self.pub_key);
        bytes_equal(&locking_hash, pub_key_hash)
    }

    /// Appends the encoding of this input.
    pub fn encode_into(&self, out: &mut Vec<u8>)
        ensures
            final(out)@ == old(out)@ + input_bytes(self@),
    {
        push_bytes(out, self.txid.as_slice());
        push_u64(out, self.vout as u64);
        push_bytes(out, self.signature.as_slice());
        push_bytes(out, self.pub_key.as_slice());
        assert(out@ =~= old(out)@ + input_bytes(self@));
    }
}

impl TXOutput {
    /// A copy equal to this output.
    pub fn copy(&self) -> (r: TXOutput)
        ensures
            r@ == self@,
    {
        TXOutput { value: self.value, pub_key_hash: self.pub_key_hash.clone() }
    }

    /// Locks this output to the key hash that `address` carries; an invalid
    /// address leaves it unchanged.
    pub fn lock(&mut self, address: &String) -> (r: Result<(), LedgerError>)
        ensures
            match decode_address(address@) {
                Ok(h) => r is Ok && final(self)@ == (TXOutputView { pub_key_hash: h, ..old(self)@ }),
                Err(e) => r == Err::<(), LedgerError>(e) && final(self)@ == old(self)@,
            },
    {
        let h = address_to_pubkeyhash(address.as_str())?;
        self.pub_key_hash = h;
        Ok(())
    }

    /// Whether this output is locked to `pub_key_hash`.
    pub fn is_locked_with_key(&self, pub_key_hash: &Vec<u8>) -> (r: bool)
        ensures
            r == (self.pub_key_hash@ == pub_key_hash@),
    {
        bytes_equal(&self.pub_key_hash, pub_key_hash)
    }

    /// An output of `value` locked to the key hash that `address` carries.
    #[allow(non_snake_case)]
    pub fn newTXOutput(value: i32, address: &String) -> (r: Result<TXOutput, LedgerError>)
        ensures
            match decode_address(address@) {
                Ok(h) => r matches Ok(o) && o@ == (TXOutputView { value, pub_key_hash: h }),
                Err(e) => r matches Err(x) && x == e,
            },
    {
        let mut txo = TXOutput { value, pub_key_hash: Vec::new() };
        txo.lock(address)?;
        Ok(txo)
    }

    /// Appends the encoding of this output.
    pub fn encode_into(&self, out: &mut Vec<u8>)
        ensures
            final(out)@ == old(out)@ + output_bytes(self@),
    {
        push_i32(out, self.value);
        push_bytes(out, self.pub_key_hash.as_slice());
        assert(out@ =~= old(out)@ + output_bytes(self@));
    }
}


/// The trimmed form that signatures are made over: every input's signature and
/// public key cleared.
pub open spec fn trimmed_view(t: TransactionView) -> TransactionView {
    TransactionView {
        inputs: t.inputs.map_values(
            |i: TXInputView| TXInputView { signature: Seq::empty(), pub_key: Seq::empty(), ..i },
        ),
        ..t
    }
}

/// The digest that input `i` signs: the trimmed transaction with that input's
/// key field holding the locking hash of the output it spends.
pub open spec fn signing_digest(t: TransactionView, i: int, locking_hash: Seq<u8>) -> Seq<u8> {
    transaction_digest(signing_view(t, i, locking_hash))
}

/// The transaction whose digest input `i` signs: the trimmed transaction in
/// which only input `i`'s key field holds a locking hash; every other input's
/// key field stays empty, so each input's digest depends on its own locking
/// hash alone.
pub open spec fn signing_view(t: TransactionView, i: int, locking_hash: Seq<u8>) -> TransactionView {
    let trimmed = trimmed_view(t);
    TransactionView {
        inputs: trimmed.inputs.update(i, TXInputView { pub_key: locking_hash, ..trimmed.inputs[i] }),
        ..trimmed
    }
}

/// The first transaction in `txs` with the given id.
pub open spec fn lookup(txs: Seq<TransactionView>, id: Seq<u8>) -> Option<TransactionView>
    decreases txs.len(),
{
    if txs.len() == 0 {
        None
    } else if txs[0].id == id {
        Some(txs[0])
    } else {
        lookup(txs.drop_first(), id)
    }
}

/// The output that an input spends, among the transactions given.
pub open spec fn spent_output(prevs: Seq<TransactionView>, input: TXInputView) -> Result<TXOutputView, LedgerError> {
    match lookup(prevs, input.txid) {
        None => Err(LedgerError::PrevTransactionMissing),
        Some(p) => if input.vout < p.outputs.len() {
            Ok(p.outputs[input.vout as int])
        } else {
            Err(LedgerError::OutputIndexOutOfRange)
        },
    }
}

/// `input` spends an output, among `prevs`, locked with `locking_hash`.
pub open spec fn resolves_to(prevs: Seq<TransactionView>, input: TXInputView, locking_hash: Seq<u8>) -> bool {
    spent_output(prevs, input) matches Ok(o) && o.pub_key_hash == locking_hash
}

/// Why the inputs' references cannot all be resolved among `prevs`: a
/// transaction that is absent wins over an output index out of range.
pub open spec fn resolution_error(prevs: Seq<TransactionView>, inputs: Seq<TXInputView>) -> Option<LedgerError> {
    if exists|k: int| 0 <= k < inputs.len() && lookup(prevs, (#[trigger] inputs[k]).txid) is None {
        Some(LedgerError::PrevTransactionMissing)
    } else if exists|k: int| 0 <= k < inputs.len() && spent_output(prevs, #[trigger] inputs[k]) is Err {
        Some(LedgerError::OutputIndexOutOfRange)
    } else {
        None
    }
}

/// Input `i` carries a key that hashes to the locking hash of the output it
/// spends, and a signature under that key over its signing digest.
pub open spec fn input_authorized(t: TransactionView, prevs: Seq<TransactionView>, i: int) -> bool {
    match spent_output(prevs, t.inputs[i]) {
        Ok(o) => {
            &&& pubkey_hash_of(t.inputs[i].pub_key) == o.pub_key_hash
            &&& ecdsa_p256_accepts(
                t.inputs[i].pub_key,
                signing_digest(t, i, o.pub_key_hash),
                t.inputs[i].signature,
            )
        },
        Err(_) => false,
    }
}

/// What verification of `t` against `prevs` reports.
pub open spec fn verify_result(t: TransactionView, prevs: Seq<TransactionView>) -> Result<bool, LedgerError> {
    if is_coinbase_view(t) {
        Ok(true)
    } else {
        match resolution_error(prevs, t.inputs) {
            Some(e) => Err(e),
            None => Ok(forall|i: int| 0 <= i < t.inputs.len() ==> input_authorized(t, prevs, i)),
        }
    }
}

/// Input `k` of `s` carries a signature, accepted under `pk`, over the
/// digest that input `k` of `t` signs with the locking hash of the output it
/// spends among `prevs`.
pub open spec fn input_signed(s: TransactionView, t: TransactionView, prevs: Seq<TransactionView>, pk: Seq<u8>, k: int) -> bool {
    spent_output(prevs, t.inputs[k]) matches Ok(o) && ecdsa_p256_accepts(
        pk,
        signing_digest(t, k, o.pub_key_hash),
        s.inputs[k].signature,
    )
}

/// `s` is `t` with new signatures only, each accepted under `pk` over the
/// digest its input signs.
pub open spec fn signed_by(s: TransactionView, t: TransactionView, prevs: Seq<TransactionView>, pk: Seq<u8>) -> bool {
    &&& only_signatures_changed(s, t)
    &&& forall|k: int| 0 <= k < t.inputs.len() ==> #[trigger] input_signed(s, t, prevs, pk, k)
}

/// `s` is `t` with new signatures and nothing else changed.
pub open spec fn only_signatures_changed(s: TransactionView, t: TransactionView) -> bool {
    &&& s.id == t.id
    &&& s.outputs == t.outputs
    &&& s.inputs.len() == t.inputs.len()
    &&& forall|i: int|
        0 <= i < t.inputs.len() ==> (#[trigger] s.inputs[i]) == (TXInputView {
            signature: s.inputs[i].signature,
            ..t.inputs[i]
        })
}

/// The unsigned inputs of a transfer spending `sel` with public key `pk`.
pub open spec fn transfer_inputs(sel: Seq<UnspentView>, pk: Seq<u8>) -> Seq<TXInputView> {
    sel.map_values(
        |u: UnspentView| TXInputView { txid: u.txid, vout: u.index, signature: Seq::empty(), pub_key: pk },
    )
}

/// The outputs of a transfer: `amount` to `to_hash`, then any positive
/// `change` back to `change_hash`.
pub open spec fn transfer_outputs(amount: i32, to_hash: Seq<u8>, change: int, change_hash: Seq<u8>) -> Seq<TXOutputView> {
    seq![TXOutputView { value: amount, pub_key_hash: to_hash }] + if change > 0 {
        seq![TXOutputView { value: change as i32, pub_key_hash: change_hash }]
    } else {
        Seq::empty()
    }
}

/// A transaction over the given inputs and outputs, named by its content.
pub open spec fn unsigned_transaction(inputs: Seq<TXInputView>, outputs: Seq<TXOutputView>) -> TransactionView {
    TransactionView {
        id: transaction_digest(TransactionView { id: Seq::empty(), inputs, outputs }),
        inputs,
        outputs,
    }
}

/// Whether every byte string in `hs` equals `h`.
pub fn all_equal_to(hs: &Vec<Vec<u8>>, h: &Vec<u8>) -> (r: bool)
    ensures
        r == forall|k: int| 0 <= k < hs@.len() ==> (#[trigger] hs@[k])@ == h@,
{
    let mut j: usize = 0;
    while j < hs.len()
        invariant
            j <= hs@.len(),
            forall|k: int| 0 <= k < j ==> (#[trigger] hs@[k])@ == h@,
        decreases hs@.len() - j,
    {
        if !bytes_equal(&hs[j], h) {
            return false;
        }
        j = j + 1;
    }
    true
}

/// Inputs that differ only in their signatures resolve alike.
pub proof fn lemma_resolution_ignores_signatures(prevs: Seq<TransactionView>, a: Seq<TXInputView>, b: Seq<TXInputView>)
    requires
        a.len() == b.len(),
        forall|k: int| 0 <= k < a.len() ==> (#[trigger] a[k]).txid == b[k].txid && a[k].vout == b[k].vout,
    ensures
        resolution_error(prevs, a) == resolution_error(prevs, b),
        forall|k: int| 0 <= k < a.len() ==> spent_output(prevs, #[trigger] a[k]) == spent_output(prevs, b[k]),
{
    assert forall|k: int| 0 <= k < a.len() implies spent_output(prevs, #[trigger] a[k]) == spent_output(prevs, b[k])
        && lookup(prevs, a[k].txid) == lookup(prevs, b[k].txid) by {}
    if exists|k: int| 0 <= k < a.len() && lookup(prevs, (#[trigger] a[k]).txid) is None {
        let k = choose|k: int| 0 <= k < a.len() && lookup(prevs, (#[trigger] a[k]).txid) is None;
        assert(lookup(prevs, b[k].txid) is None);
    }
    if exists|k: int| 0 <= k < b.len() && lookup(prevs, (#[trigger] b[k]).txid) is None {
        let k = choose|k: int| 0 <= k < b.len() && lookup(prevs, (#[trigger] b[k]).txid) is None;
        assert(lookup(prevs, a[k].txid) is None);
    }
    if exists|k: int| 0 <= k < a.len() && spent_output(prevs, #[trigger] a[k]) is Err {
        let k = choose|k: int| 0 <= k < a.len() && spent_output(prevs, #[trigger] a[k]) is Err;
        assert(spent_output(prevs, b[k]) is Err);
    }
    if exists|k: int| 0 <= k < b.len() && spent_output(prevs, #[trigger] b[k]) is Err {
        let k = choose|k: int| 0 <= k < b.len() && spent_output(prevs, #[trigger] b[k]) is Err;
        assert(spent_output(prevs, a[k]) is Err);
    }
}

pub proof fn lemma_only_signatures_changed_refl(t: TransactionView)
    ensures
        only_signatures_changed(t, t),
{
}

/// Signature round trip: a transfer whose inputs all carry the signer's
/// public key, spend outputs locked to that key's hash, and are signed by
/// that key over their signing digests, verifies.
pub proof fn lemma_signed_transfer_verifies(
    t: TransactionView,
    u: TransactionView,
    prevs: Seq<TransactionView>,
    pk: Seq<u8>,
    pkh: Seq<u8>,
)
    requires
        signed_by(t, u, prevs, pk),
        !is_coinbase_view(u),
        resolution_error(prevs, u.inputs) is None,
        pubkey_hash_of(pk) == pkh,
        forall|k: int| 0 <= k < u.inputs.len() ==> (#[trigger] u.inputs[k]).pub_key == pk,
        forall|k: int| 0 <= k < u.inputs.len() ==> resolves_to(prevs, #[trigger] u.inputs[k], pkh),
    ensures
        verify_result(t, prevs) == Ok::<bool, LedgerError>(true),
{
    assert forall|k: int| 0 <= k < t.inputs.len() implies (#[trigger] t.inputs[k]).txid == u.inputs[k].txid
        && t.inputs[k].vout == u.inputs[k].vout by {
        assert(t.inputs[k] == (TXInputView { signature: t.inputs[k].signature, ..u.inputs[k] }));
    }
    lemma_resolution_ignores_signatures(prevs, t.inputs, u.inputs);
    if t.inputs.len() == 1 {
        assert(t.inputs[0] == (TXInputView { signature: t.inputs[0].signature, ..u.inputs[0] }));
    }
    assert(!is_coinbase_view(t));
    assert forall|k: int| 0 <= k < t.inputs.len() implies input_authorized(t, prevs, k) by {
        assert(t.inputs[k] == (TXInputView { signature: t.inputs[k].signature, ..u.inputs[k] }));
        assert(input_signed(t, u, prevs, pk, k));
        assert(spent_output(prevs, t.inputs[k]) == spent_output(prevs, u.inputs[k]));
        assert(resolves_to(prevs, u.inputs[k], pkh));
        let o = spent_output(prevs, u.inputs[k])->Ok_0;
        lemma_signing_keeps_digests(t, u, k, o.pub_key_hash);
    }
}

/// The position in `txs` of the first transaction with the given id.
pub fn find_by_id(txs: &Vec<Transaction>, id: &Vec<u8>) -> (r: Option<usize>)
    ensures
        match r {
            Some(k) => k < txs@.len() && lookup(transactions_view(txs@), id@) == Some(txs@[k as int]@),
            None => lookup(transactions_view(txs@), id@) is None,
        },
{
    let ghost all = transactions_view(txs@);
    let mut k: usize = 0;
    assert(all.subrange(0, all.len() as int) =~= all);
    while k < txs.len()
        invariant
            k <= txs@.len(),
            all == transactions_view(txs@),
            lookup(all, id@) == lookup(all.subrange(k as int, all.len() as int), id@),
        decreases txs@.len() - k,
    {
        let ghost rest = all.subrange(k as int, all.len() as int);
        assert(rest.drop_first() =~= all.subrange(k + 1, all.len() as int));
        assert(rest[0] == txs@[k as int]@);
        if bytes_equal(&txs[k].id, id) {
            return Some(k);
        }
        k = k + 1;
    }
    None
}

pub open spec fn transactions_view(s: Seq<Transaction>) -> Seq<TransactionView> {
    s.map_values(|t: Transaction| t@)
}

/// Updating an element commutes with mapping over a sequence.
pub proof fn lemma_map_update<A, B>(s: Seq<A>, i: int, x: A, f: spec_fn(A) -> B)
    requires
        0 <= i < s.len(),
    ensures
        s.update(i, x).map_values(f) == s.map_values(f).update(i, f(x)),
{
    assert(s.update(i, x).map_values(f) =~= s.map_values(f).update(i, f(x)));
}

/// The locking hash of the output that `input` spends, among `prevs`.
pub fn spent_locking_hash(prevs: &Vec<Transaction>, input: &TXInput) -> (r: Result<Vec<u8>, LedgerError>)
    ensures
        match spent_output(transactions_view(prevs@), input@) {
            Ok(o) => r matches Ok(h) && h@ == o.pub_key_hash,
            Err(e) => r == Err::<Vec<u8>, LedgerError>(e),
        },
{
    match find_by_id(prevs, &input.txid) {
        None => Err(LedgerError::PrevTransactionMissing),
        Some(k) => {
            let p = &prevs[k];
            if input.vout < p.outputs.len() {
                Ok(p.outputs[input.vout].pub_key_hash.clone())
            } else {
                Err(LedgerError::OutputIndexOutOfRange)
            }
        },
    }
}

impl Transaction {
    /// A copy equal to this transaction.
    pub fn copy(&self) -> (r: Transaction)
        ensures
            r@ == self@,
    {
        let mut inputs: Vec<TXInput> = Vec::new();
        let mut i: usize = 0;
        while i < self.inputs.len()
            invariant
                i <= self.inputs@.len(),
                inputs_view(inputs@) == inputs_view(self.inputs@).subrange(0, i as int),
            decreases self.inputs@.len() - i,
        {
            let ghost before = inputs@;
            let vin = self.inputs[i].copy();
            inputs.push(vin);
            proof {
                lemma_map_push(before, vin, |x: TXInput| x@);
            }
            i = i + 1;
            assert(inputs_view(inputs@) =~= inputs_view(self.inputs@).subrange(0, i as int));
        }
        let mut outputs: Vec<TXOutput> = Vec::new();
        let mut j: usize = 0;
        while j < self.outputs.len()
            invariant
                j <= self.outputs@.len(),
                outputs_view(outputs@) == outputs_view(self.outputs@).subrange(0, j as int),
            decreases self.outputs@.len() - j,
        {
            let ghost before = outputs@;
            let out = self.outputs[j].copy();
            outputs.push(out);
            proof {
                lemma_map_push(before, out, |x: TXOutput| x@);
            }
            j = j + 1;
            assert(outputs_view(outputs@) =~= outputs_view(self.outputs@).subrange(0, j as int));
        }
        assert(inputs_view(inputs@) =~= inputs_view(self.inputs@));
        assert(outputs_view(outputs@) =~= outputs_view(self.outputs@));
        Transaction { id: self.id.clone(), inputs, outputs }
    }

    /// Whether this is a coinbase transaction.
    pub fn is_coinbase(&self) -> (r: bool)
        ensures
            r == is_coinbase_view(self@),
    {
        self.inputs.len() == 1 && self.inputs[0].txid.len() == 0 && self.inputs[0].vout
            == COINBASE_VOUT
    }

    /// Appends the encoding of this transaction.
    pub fn encode_into(&self, out: &mut Vec<u8>)
        ensures
            final(out)@ == old(out)@ + transaction_bytes(self@),
    {
        let ghost t = self@;
        push_bytes(out, self.id.as_slice());
        push_u64(out, self.inputs.len() as u64);
        let ghost base = out@;
        let mut i: usize = 0;
        while i < self.inputs.len()
            invariant
                i <= self.inputs@.len(),
                t == self@,
                out@ == base + inputs_bytes(t.inputs.subrange(0, i as int)),
            decreases self.inputs@.len() - i,
        {
            self.inputs[i].encode_into(out);
            i = i + 1;
            assert(t.inputs.subrange(0, i as int).drop_last() =~= t.inputs.subrange(0, i - 1));
            assert(out@ =~= base + inputs_bytes(t.inputs.subrange(0, i as int)));
        }
        assert(t.inputs.subrange(0, t.inputs.len() as int) =~= t.inputs);
        push_u64(out, self.outputs.len() as u64);
        let ghost base2 = out@;
        let mut j: usize = 0;
        while j < self.outputs.len()
            invariant
                j <= self.outputs@.len(),
                t == self@,
                out@ == base2 + outputs_bytes(t.outputs.subrange(0, j as int)),
            decreases self.outputs@.len() - j,
        {
            self.outputs[j].encode_into(out);
            j = j + 1;
            assert(t.outputs.subrange(0, j as int).drop_last() =~= t.outputs.subrange(0, j - 1));
            assert(out@ =~= base2 + outputs_bytes(t.outputs.subrange(0, j as int)));
        }
        assert(t.outputs.subrange(0, t.outputs.len() as int) =~= t.outputs);
        assert(out@ =~= old(out)@ + transaction_bytes(t));
    }

    /// The encoding of this transaction.
    pub fn serialize(&self) -> (r: Vec<u8>)
        ensures
            r@ == transaction_bytes(self@),
    {
        let mut out: Vec<u8> = Vec::new();
        self.encode_into(&mut out);
        assert(out@ =~= transaction_bytes(self@));
        out
    }

    /// The digest of this transaction's encoding.
    pub fn set_hash(&self) -> (r: Vec<u8>)
        ensures
            r@ == transaction_digest(self@),
            r@.len() == 32,
    {
        let encoded = self.serialize();
        sha3_256(encoded.as_slice())
    }

    /// The id this transaction takes: the digest of its encoding, computed
    /// while its id is still empty.
    pub fn set_id(&self) -> (r: Vec<u8>)
        ensures
            r@ == transaction_digest(self@),
            r@.len() == 32,
    {
        self.set_hash()
    }

    /// The coinbase that mints the subsidy to `to`, carrying `data` in its one
    /// input.
    pub fn new_coinbase_transcation(to: &String, data: &String) -> (r: Result<Transaction, LedgerError>)
        ensures
            match decode_address(to@) {
                Ok(h) => r matches Ok(t) && {
                    &&& is_coinbase_view(t@)
                    &&& t@.inputs[0].pub_key == vstd::utf8::encode_utf8(data@)
                    &&& t@.inputs[0].signature.len() == 0
                    &&& t@.outputs == seq![TXOutputView { value: SUBSIDY, pub_key_hash: h }]
                    &&& with_content_id(t@.id, t@.inputs, t@.outputs)
                    &&& t@ == coinbase_view(h, vstd::utf8::encode_utf8(data@))
                },
                Err(e) => r matches Err(x) && x == e,
            },
    {
        let txout = TXOutput::newTXOutput(SUBSIDY, to)?;
        let ghost h = txout.pub_key_hash@;
        let payload = vstd::slice::slice_to_vec(data.as_str().as_bytes());
        let txin = TXInput {
            txid: Vec::new(),
            vout: COINBASE_VOUT,
            signature: Vec::new(),
            pub_key: payload,
        };
        let mut tx = Transaction { id: Vec::new(), inputs: vec![txin], outputs: vec![txout] };
        assert(tx@.inputs =~= seq![tx.inputs@[0]@]);
        assert(tx@.outputs =~= seq![tx.outputs@[0]@]);
        let id = tx.set_id();
        assert(tx@.id =~= Seq::<u8>::empty());
        tx.id = id;
        assert(tx@.inputs[0].txid =~= Seq::<u8>::empty());
        assert(tx@.inputs =~= coinbase_view(h, vstd::utf8::encode_utf8(data@)).inputs);
        Ok(tx)
    }

    /// A signed transfer of `amount` from the wallet held under `from_addr` to
    /// `to_addr`. Its inputs are the first-fit choice, in scan order, of the
    /// sender's unspent outputs on `bc`; change above `amount` goes back to
    /// the sender's key hash.
    #[verifier::rlimit(50)]
    pub fn new_utxo_transaction(
        from_addr: &String,
        to_addr: &String,
        amount: i32,
        bc: &BlockChain,
        cur_wallets: &Wallets,
    ) -> (r: Result<Transaction, LedgerError>)
        requires
            cur_wallets.well_formed(),
        ensures
            match wallet_position(cur_wallets.wallets@, from_addr@) {
                None => r == Err::<Transaction, LedgerError>(LedgerError::WalletNotFound),
                Some(k) => if amount <= 0 {
                    r == Err::<Transaction, LedgerError>(LedgerError::InvalidAmount)
                } else {
                    let pk = cur_wallets.wallets@[k].1.public_key@;
                    let pkh = pubkey_hash_of(pk);
                    let sel = selection(chain_unspent(bc@, Some(pkh)), amount as int);
                    let acc = value_sum(sel);
                    let ins = transfer_inputs(sel, pk);
                    let all = crate::block_chain::traversal(bc@);
                    if acc < amount {
                        r == Err::<Transaction, LedgerError>(LedgerError::InsufficientFunds)
                    } else {
                        match decode_address(to_addr@) {
                            Err(e) => r == Err::<Transaction, LedgerError>(e),
                            Ok(to_hash) => match resolution_error(all, ins) {
                                Some(e) => r == Err::<Transaction, LedgerError>(e),
                                None => if !(forall|j: int| 0 <= j < ins.len() ==> resolves_to(all, #[trigger] ins[j], pkh)) {
                                    r == Err::<Transaction, LedgerError>(LedgerError::InvalidTransaction)
                                } else {
                                    match r {
                                        Ok(t) => {
                                            &&& only_signatures_changed(
                                                t@,
                                                unsigned_transaction(ins, transfer_outputs(amount, to_hash, acc - amount, pkh)),
                                            )
                                            &&& verify_result(t@, all) == Ok::<bool, LedgerError>(true)
                                        },
                                        Err(e) => e == LedgerError::SigningFailed,
                                    }
                                },
                            },
                        }
                    }
                },
            },
    {
        let wallet = match cur_wallets.get_wallet(from_addr.as_str()) {
            Some(w) => w,
            None => {
                return Err(LedgerError::WalletNotFound);
            },
        };
        if amount <= 0 {
            return Err(LedgerError::InvalidAmount);
        }
        let pub_key_hash = publicKey_to_hash(&wallet.public_key);
        let (acc, valid_outputs) = bc.find_spendable_outputs(&pub_key_hash, amount);
        if acc < amount as i64 {
            return Err(LedgerError::InsufficientFunds);
        }
        let to_hash = address_to_pubkeyhash(to_addr.as_str())?;
        let ghost sel = selection(chain_unspent(bc@, Some(pub_key_hash@)), amount as int);
        let ghost want_inputs = transfer_inputs(sel, wallet.public_key@);
        let mut inputs: Vec<TXInput> = Vec::new();
        let mut i: usize = 0;
        assert(as_outpoints(sel).len() == sel.len());
        assert(outpoints_view(valid_outputs@).len() == valid_outputs@.len());
        while i < valid_outputs.len()
            invariant
                i <= valid_outputs@.len(),
                sel.len() == valid_outputs@.len(),
                want_inputs.len() == sel.len(),
                outpoints_view(valid_outputs@) == as_outpoints(sel),
                want_inputs == transfer_inputs(sel, wallet.public_key@),
                inputs_view(inputs@) == want_inputs.subrange(0, i as int),
            decreases valid_outputs@.len() - i,
        {
            assert(outpoints_view(valid_outputs@)[i as int] == valid_outputs@[i as int]@);
            assert(as_outpoints(sel)[i as int] == (sel[i as int].txid, sel[i as int].index));
            let ghost before = inputs@;
            let input = TXInput {
                txid: valid_outputs[i].txid.clone(),
                vout: valid_outputs[i].index,
                signature: Vec::new(),
                pub_key: wallet.public_key.clone(),
            };
            inputs.push(input);
            proof {
                lemma_map_push(before, input, |x: TXInput| x@);
            }
            i = i + 1;
            assert(inputs_view(inputs@) =~= want_inputs.subrange(0, i as int));
        }
        assert(inputs_view(inputs@) =~= want_inputs);
        let mut outputs: Vec<TXOutput> = Vec::new();
        outputs.push(TXOutput { value: amount, pub_key_hash: to_hash });
        if acc > amount as i64 {
            let change = (acc - amount as i64) as i32;
            outputs.push(TXOutput { value: change, pub_key_hash: pub_key_hash.clone() });
        }
        assert(outputs_view(outputs@) =~= transfer_outputs(amount, to_hash@, acc - amount, pub_key_hash@));
        let mut tx = Transaction { id: Vec::new(), inputs, outputs };
        assert(tx@.id =~= Seq::<u8>::empty());
        let id = tx.set_id();
        tx.id = id;
        let ghost unsigned = tx@;
        assert(unsigned == unsigned_transaction(want_inputs, outputs_view(tx.outputs@)));
        let all = bc.all_transactions();
        let ghost pv = transactions_view(all@);
        let hashes = match tx.locking_hashes(&all) {
            Ok(h) => h,
            Err(e) => {
                return Err(e);
            },
        };
        assert forall|k: int| 0 <= k < hashes@.len() implies (#[trigger] hashes@[k])@ == pub_key_hash@ <==> resolves_to(pv, want_inputs[k], pub_key_hash@) by {
            assert(resolves_to(pv, want_inputs[k], hashes@[k]@));
        }
        if !all_equal_to(&hashes, &pub_key_hash) {
            assert(!(forall|k: int| 0 <= k < want_inputs.len() ==> resolves_to(pv, #[trigger] want_inputs[k], pub_key_hash@)));
            return Err(LedgerError::InvalidTransaction);
        }
        assert forall|k: int| 0 <= k < want_inputs.len() implies resolves_to(pv, #[trigger] want_inputs[k], pub_key_hash@) by {
            assert(hashes@[k]@ == pub_key_hash@);
            assert(resolves_to(pv, want_inputs[k], hashes@[k]@));
        }
        assert(unsigned.inputs == want_inputs);
        proof {
            crate::wallet::lemma_wallet_position(cur_wallets.wallets@, from_addr@);
        }
        assert(wallet.well_formed());
        assert(forall|k: int| 0 <= k < unsigned.inputs.len() ==> (#[trigger] unsigned.inputs[k]).pub_key == wallet.public_key@);
        match tx.sign(&wallet.pkcs8, &all) {
            Ok(()) => {
                proof {
                    if is_coinbase_view(unsigned) {
                        lemma_only_signatures_changed_refl(unsigned);
                    } else {
                        lemma_signed_transfer_verifies(tx@, unsigned, pv, wallet.public_key@, pub_key_hash@);
                    }
                }
                Ok(tx)
            },
            Err(e) => Err(e),
        }
    }

    /// The trimmed form of this transaction, over which signatures are made.
    pub fn trimmed_copy(&self) -> (r: Transaction)
        ensures
            r@ == trimmed_view(self@),
    {
        let mut inputs: Vec<TXInput> = Vec::new();
        let mut i: usize = 0;
        while i < self.inputs.len()
            invariant
                i <= self.inputs@.len(),
                inputs_view(inputs@) == trimmed_view(self@).inputs.subrange(0, i as int),
            decreases self.inputs@.len() - i,
        {
            let vin = &self.inputs[i];
            let ghost before = inputs@;
            let cleared = TXInput {
                txid: vin.txid.clone(),
                vout: vin.vout,
                signature: Vec::new(),
                pub_key: Vec::new(),
            };
            inputs.push(cleared);
            proof {
                lemma_map_push(before, cleared, |x: TXInput| x@);
            }
            i = i + 1;
            assert(inputs_view(inputs@) =~= trimmed_view(self@).inputs.subrange(0, i as int));
        }
        let mut outputs: Vec<TXOutput> = Vec::new();
        let mut j: usize = 0;
        while j < self.outputs.len()
            invariant
                j <= self.outputs@.len(),
                outputs_view(outputs@) == outputs_view(self.outputs@).subrange(0, j as int),
            decreases self.outputs@.len() - j,
        {
            let ghost before = outputs@;
            let out = self.outputs[j].copy();
            outputs.push(out);
            proof {
                lemma_map_push(before, out, |x: TXOutput| x@);
            }
            j = j + 1;
            assert(outputs_view(outputs@) =~= outputs_view(self.outputs@).subrange(0, j as int));
        }
        assert(inputs_view(inputs@) =~= trimmed_view(self@).inputs);
        assert(outputs_view(outputs@) =~= outputs_view(self.outputs@));
        Transaction { id: self.id.clone(), inputs, outputs }
    }

    /// The digest that input `i` signs, given the locking hash of the output
    /// it spends.
    pub fn signing_digest_for(&self, i: usize, locking_hash: &Vec<u8>) -> (r: Vec<u8>)
        requires
            i < self.inputs@.len(),
        ensures
            r@ == signing_digest(self@, i as int, locking_hash@),
    {
        let mut copy = self.trimmed_copy();
        assert(copy@.inputs.len() == copy.inputs@.len());
        let ghost before = copy.inputs@;
        let vin = TXInput {
            txid: copy.inputs[i].txid.clone(),
            vout: copy.inputs[i].vout,
            signature: Vec::new(),
            pub_key: locking_hash.clone(),
        };
        copy.inputs[i] = vin;
        proof {
            lemma_map_update(before, i as int, vin, |x: TXInput| x@);
            let trimmed = trimmed_view(self@);
            assert(copy@ == signing_view(self@, i as int, locking_hash@));
            assert(copy@.inputs =~= trimmed.inputs.update(
                i as int,
                TXInputView { pub_key: locking_hash@, ..trimmed.inputs[i as int] },
            ));
        }
        copy.set_hash()
    }

    /// The locking hashes of the outputs that the inputs spend, in input
    /// order, or the first failure to resolve one.
    pub fn locking_hashes(&self, prev_txs: &Vec<Transaction>) -> (r: Result<Vec<Vec<u8>>, LedgerError>)
        ensures
            match resolution_error(transactions_view(prev_txs@), self@.inputs) {
                Some(e) => r == Err::<Vec<Vec<u8>>, LedgerError>(e),
                None => r matches Ok(hs) && hs@.len() == self@.inputs.len() && forall|k: int|
                    0 <= k < hs@.len() ==> resolves_to(
                        transactions_view(prev_txs@),
                        self@.inputs[k],
                        (#[trigger] hs@[k])@,
                    ),
            },
    {
        let ghost pv = transactions_view(prev_txs@);
        let ghost ins = self@.inputs;
        let mut i: usize = 0;
        while i < self.inputs.len()
            invariant
                i <= self.inputs@.len(),
                pv == transactions_view(prev_txs@),
                ins == self@.inputs,
                forall|k: int| 0 <= k < i ==> lookup(pv, (#[trigger] ins[k]).txid) is Some,
            decreases self.inputs@.len() - i,
        {
            assert(ins[i as int] == self.inputs@[i as int]@);
            if find_by_id(prev_txs, &self.inputs[i].txid).is_none() {
                assert(lookup(pv, ins[i as int].txid) is None);
                return Err(LedgerError::PrevTransactionMissing);
            }
            i = i + 1;
        }
        let mut hs: Vec<Vec<u8>> = Vec::new();
        let mut j: usize = 0;
        while j < self.inputs.len()
            invariant
                j <= self.inputs@.len(),
                pv == transactions_view(prev_txs@),
                ins == self@.inputs,
                forall|k: int| 0 <= k < ins.len() ==> lookup(pv, (#[trigger] ins[k]).txid) is Some,
                hs@.len() == j,
                forall|k: int| 0 <= k < j ==> resolves_to(pv, ins[k], (#[trigger] hs@[k])@),
            decreases self.inputs@.len() - j,
        {
            assert(ins[j as int] == self.inputs@[j as int]@);
            let ghost old_hs = hs@;
            match spent_locking_hash(prev_txs, &self.inputs[j]) {
                Ok(h) => {
                    hs.push(h);
                    assert forall|k: int| 0 <= k <= j implies resolves_to(pv, ins[k], (#[trigger] hs@[k])@) by {
                        if k < j {
                            assert(hs@[k] == old_hs[k]);
                        }
                    }
                },
                Err(e) => {
                    assert(spent_output(pv, ins[j as int]) is Err);
                    return Err(e);
                },
            }
            j = j + 1;
        }
        assert forall|k: int| 0 <= k < ins.len() implies !(spent_output(pv, #[trigger] ins[k]) is Err) by {
            assert(resolves_to(pv, ins[k], hs@[k]@));
        }
        Ok(hs)
    }

    /// Signs every input, with the key held in the PKCS#8 document `pkcs8`,
    /// over its signing digest. A coinbase is left as it is; a failure leaves
    /// the transaction unchanged.
    pub fn sign(&mut self, pkcs8: &Vec<u8>, prev_txs: &Vec<Transaction>) -> (r: Result<(), LedgerError>)
        ensures
            is_coinbase_view(old(self)@) ==> r is Ok && final(self)@ == old(self)@,
            !is_coinbase_view(old(self)@) ==> match resolution_error(transactions_view(prev_txs@), old(self)@.inputs) {
                Some(e) => r == Err::<(), LedgerError>(e) && final(self)@ == old(self)@,
                None => {
                    ||| r is Ok && signed_by(final(self)@, old(self)@, transactions_view(prev_txs@), pkcs8_public_key(pkcs8@))
                    ||| r == Err::<(), LedgerError>(LedgerError::SigningFailed) && final(self)@ == old(self)@
                },
            },
    {
        if self.is_coinbase() {
            return Ok(());
        }
        let ghost pv = transactions_view(prev_txs@);
        let ghost pk = pkcs8_public_key(pkcs8@);
        let hashes = match self.locking_hashes(prev_txs) {
            Ok(hs) => hs,
            Err(e) => {
                return Err(e);
            },
        };
        let mut sigs: Vec<Vec<u8>> = Vec::new();
        let mut i: usize = 0;
        while i < self.inputs.len()
            invariant
                i <= self.inputs@.len(),
                self@ == old(self)@,
                pv == transactions_view(prev_txs@),
                pk == pkcs8_public_key(pkcs8@),
                !is_coinbase_view(old(self)@),
                resolution_error(pv, old(self)@.inputs) is None,
                hashes@.len() == self.inputs@.len(),
                forall|k: int| 0 <= k < hashes@.len() ==> resolves_to(pv, self@.inputs[k], (#[trigger] hashes@[k])@),
                sigs@.len() == i,
                forall|k: int|
                    0 <= k < i ==> ecdsa_p256_accepts(pk, signing_digest(self@, k, hashes@[k]@), (#[trigger] sigs@[k])@),
            decreases self.inputs@.len() - i,
        {
            let digest = self.signing_digest_for(i, &hashes[i]);
            match ecdsa_sign_doc(pkcs8.as_slice(), digest.as_slice()) {
                Some(sig) => {
                    let ghost before = sigs@;
                    sigs.push(sig);
                    assert(forall|k: int| 0 <= k < i ==> sigs@[k] == before[k]);
                },
                None => {
                    return Err(LedgerError::SigningFailed);
                },
            }
            i = i + 1;
        }
        let ghost unsigned = self@;
        let mut j: usize = 0;
        while j < sigs.len()
            invariant
                j <= sigs@.len(),
                sigs@.len() == unsigned.inputs.len(),
                self@.id == unsigned.id,
                self@.outputs == unsigned.outputs,
                self.inputs@.len() == unsigned.inputs.len(),
                self@.inputs.len() == unsigned.inputs.len(),
                forall|k: int|
                    0 <= k < unsigned.inputs.len() ==> (#[trigger] self@.inputs[k]) == (TXInputView {
                        signature: self@.inputs[k].signature,
                        ..unsigned.inputs[k]
                    }),
                forall|k: int| 0 <= k < j ==> (#[trigger] self@.inputs[k]).signature == sigs@[k]@,
            decreases sigs@.len() - j,
        {
            let ghost before = self.inputs@;
            let vin = TXInput {
                txid: self.inputs[j].txid.clone(),
                vout: self.inputs[j].vout,
                signature: sigs[j].clone(),
                pub_key: self.inputs[j].pub_key.clone(),
            };
            let ghost before_view = inputs_view(before);
            assert(before_view[j as int] == before[j as int]@);
            self.inputs[j] = vin;
            proof {
                lemma_map_update(before, j as int, vin, |x: TXInput| x@);
                assert forall|k: int| 0 <= k < unsigned.inputs.len() implies (#[trigger] self@.inputs[k])
                    == (TXInputView { signature: self@.inputs[k].signature, ..unsigned.inputs[k] }) by {
                    if k != j {
                        assert(self@.inputs[k] == before_view[k]);
                    }
                }
                assert forall|k: int| 0 <= k <= j implies (#[trigger] self@.inputs[k]).signature == sigs@[k]@ by {
                    if k != j {
                        assert(self@.inputs[k] == before_view[k]);
                    }
                }
            }
            j = j + 1;
        }
        proof {
            assert forall|k: int| 0 <= k < unsigned.inputs.len() implies #[trigger] input_signed(
                self@,
                unsigned,
                pv,
                pk,
                k,
            ) by {
                assert(resolves_to(pv, unsigned.inputs[k], hashes@[k]@));
                assert(ecdsa_p256_accepts(pk, signing_digest(unsigned, k, hashes@[k]@), sigs@[k]@));
                assert(self@.inputs[k].signature == sigs@[k]@);
            }
        }
        Ok(())
    }

    /// Checks every input: the output it spends must be found among
    /// `prev_txs`, its key must hash to that output's locking hash, and its
    /// signature must check out over its signing digest. A coinbase passes.
    pub fn verify(&self, prev_txs: &Vec<Transaction>) -> (r: Result<bool, LedgerError>)
        ensures
            r == verify_result(self@, transactions_view(prev_txs@)),
    {
        if self.is_coinbase() {
            return Ok(true);
        }
        let ghost pv = transactions_view(prev_txs@);
        let hashes = match self.locking_hashes(prev_txs) {
            Ok(hs) => hs,
            Err(e) => {
                return Err(e);
            },
        };
        let mut i: usize = 0;
        while i < self.inputs.len()
            invariant
                i <= self.inputs@.len(),
                pv == transactions_view(prev_txs@),
                !is_coinbase_view(self@),
                resolution_error(pv, self@.inputs) is None,
                hashes@.len() == self@.inputs.len(),
                forall|k: int| 0 <= k < hashes@.len() ==> resolves_to(pv, self@.inputs[k], (#[trigger] hashes@[k])@),
                forall|k: int| 0 <= k < i ==> input_authorized(self@, pv, k),
            decreases self.inputs@.len() - i,
        {
            let vin = &self.inputs[i];
            assert(self@.inputs[i as int] == vin@);
            assert(resolves_to(pv, self@.inputs[i as int], hashes@[i as int]@));
            let owns = vin.uses_key(&hashes[i]);
            let digest = self.signing_digest_for(i, &hashes[i]);
            let signed = ecdsa_verify(vin.pub_key.as_slice(), digest.as_slice(), vin.signature.as_slice());
            if !(owns && signed) {
                assert(!input_authorized(self@, pv, i as int));
                assert(!(forall|k: int| 0 <= k < self@.inputs.len() ==> input_authorized(self@, pv, k)));
                return Ok(false);
            }
            i = i + 1;
        }
        Ok(true)
    }
}

} // verus!

verus! {

/// Replacing the middle of a sequence with a different part of the same
/// length changes the sequence.
pub proof fn lemma_splice_differs(a: Seq<u8>, b1: Seq<u8>, b2: Seq<u8>, c: Seq<u8>)
    requires
        b1.len() == b2.len(),
        b1 != b2,
    ensures
        a + b1 + c != a + b2 + c,
{
    if a + b1 + c == a + b2 + c {
        assert((a + b1 + c).subrange(a.len() as int, (a.len() + b1.len()) as int) =~= b1);
        assert((a + b2 + c).subrange(a.len() as int, (a.len() + b2.len()) as int) =~= b2);
    }
}

/// Encoding a list of outputs distributes over concatenation.
pub proof fn lemma_outputs_bytes_concat(s1: Seq<TXOutputView>, s2: Seq<TXOutputView>)
    ensures
        outputs_bytes(s1 + s2) == outputs_bytes(s1) + outputs_bytes(s2),
    decreases s2.len(),
{
    if s2.len() == 0 {
        assert(s1 + s2 =~= s1);
        assert(outputs_bytes(s2) =~= Seq::<u8>::empty());
        assert(outputs_bytes(s1) + outputs_bytes(s2) =~= outputs_bytes(s1));
    } else {
        lemma_outputs_bytes_concat(s1, s2.drop_last());
        assert((s1 + s2).drop_last() =~= s1 + s2.drop_last());
        assert((s1 + s2).last() == s2.last());
        assert(outputs_bytes(s1 + s2) =~= outputs_bytes(s1) + outputs_bytes(s2));
    }
}

/// Signing changes signatures only, so the digest that each input signs is
/// the same before and after: a signature made over a transaction still
/// covers the signed transaction.
pub proof fn lemma_signing_keeps_digests(s: TransactionView, t: TransactionView, i: int, locking_hash: Seq<u8>)
    requires
        only_signatures_changed(s, t),
        0 <= i < t.inputs.len(),
    ensures
        signing_view(s, i, locking_hash) == signing_view(t, i, locking_hash),
        signing_digest(s, i, locking_hash) == signing_digest(t, i, locking_hash),
{
    assert(trimmed_view(s).inputs =~= trimmed_view(t).inputs);
    assert(signing_view(s, i, locking_hash) == signing_view(t, i, locking_hash));
}

/// Every input signs every output's value: changing the value of any output
/// changes the bytes under each input's signature.
pub proof fn lemma_output_values_are_signed(t: TransactionView, i: int, locking_hash: Seq<u8>, k: int, value: i32)
    requires
        0 <= i < t.inputs.len(),
        0 <= k < t.outputs.len(),
        value != t.outputs[k].value,
    ensures
        transaction_bytes(signing_view(t, i, locking_hash)) != transaction_bytes(
            signing_view(
                TransactionView {
                    outputs: t.outputs.update(k, TXOutputView { value, ..t.outputs[k] }),
                    ..t
                },
                i,
                locking_hash,
            ),
        ),
{
    let o = t.outputs[k];
    let o2 = TXOutputView { value, ..o };
    let t2 = TransactionView { outputs: t.outputs.update(k, o2), ..t };
    let v1 = signing_view(t, i, locking_hash);
    let v2 = signing_view(t2, i, locking_hash);
    assert(v1.inputs == v2.inputs);
    let pre = t.outputs.subrange(0, k);
    let post = t.outputs.subrange(k + 1, t.outputs.len() as int);
    assert(t.outputs =~= pre + seq![o] + post);
    assert(t2.outputs =~= pre + seq![o2] + post);
    lemma_outputs_bytes_concat(pre + seq![o], post);
    lemma_outputs_bytes_concat(pre, seq![o]);
    lemma_outputs_bytes_concat(pre + seq![o2], post);
    lemma_outputs_bytes_concat(pre, seq![o2]);
    assert(seq![o].drop_last() =~= Seq::<TXOutputView>::empty());
    assert(seq![o2].drop_last() =~= Seq::<TXOutputView>::empty());
    assert(outputs_bytes(seq![o].drop_last()) == Seq::<u8>::empty());
    assert(outputs_bytes(seq![o2].drop_last()) == Seq::<u8>::empty());
    assert(seq![o].last() == o);
    assert(seq![o2].last() == o2);
    assert(outputs_bytes(seq![o]) =~= output_bytes(o));
    assert(outputs_bytes(seq![o2]) =~= output_bytes(o2));
    if i32_le(o.value) == i32_le(value) {
        crate::encoding::lemma_i32_le_injective(o.value, value);
    }
    lemma_splice_differs(Seq::empty(), i32_le(o.value), i32_le(value), bytes_field(o.pub_key_hash));
    assert(output_bytes(o) =~= Seq::empty() + i32_le(o.value) + bytes_field(o.pub_key_hash));
    assert(output_bytes(o2) =~= Seq::empty() + i32_le(value) + bytes_field(o.pub_key_hash));
    let head = bytes_field(v1.id) + u64_le(v1.inputs.len() as u64) + inputs_bytes(v1.inputs) + u64_le(
        v1.outputs.len() as u64,
    ) + outputs_bytes(pre);
    lemma_splice_differs(head, output_bytes(o), output_bytes(o2), outputs_bytes(post));
    assert(transaction_bytes(v1) =~= head + output_bytes(o) + outputs_bytes(post));
    assert(transaction_bytes(v2) =~= head + output_bytes(o2) + outputs_bytes(post));
}

} // verus!

verus! {

/// The total value of a list of outputs.
pub open spec fn outputs_value(s: Seq<TXOutputView>) -> int
    decreases s.len(),
{
    if s.len() == 0 {
        0
    } else {
        outputs_value(s.drop_last()) + s.last().value
    }
}

/// A transfer conserves value: the outputs it creates carry exactly the
/// total of the outputs it spends, `amount` to the payee and the rest as
/// change.
pub proof fn lemma_transfer_conserves_value(
    sel: Seq<UnspentView>,
    amount: i32,
    to_hash: Seq<u8>,
    change_hash: Seq<u8>,
)
    requires
        amount > 0,
        value_sum(sel) >= amount,
        value_sum(sel) < amount + 0x8000_0000,
    ensures
        outputs_value(transfer_outputs(amount, to_hash, value_sum(sel) - amount, change_hash)) == value_sum(sel),
{
    let change = value_sum(sel) - amount;
    let outs = transfer_outputs(amount, to_hash, change, change_hash);
    let first = seq![TXOutputView { value: amount, pub_key_hash: to_hash }];
    assert(first.drop_last().len() == 0);
    assert(outputs_value(first.drop_last()) == 0);
    assert(first.last().value == amount);
    assert(outputs_value(first) == amount as int);
    if change > 0 {
        assert(outs.drop_last() =~= first);
        assert(outs.last().value == change);
    } else {
        assert(outs =~= first);
    }
}

/// A coinbase mints exactly the subsidy.
pub proof fn lemma_coinbase_mints_subsidy(t: TransactionView, h: Seq<u8>)
    requires
        t.outputs == seq![TXOutputView { value: SUBSIDY, pub_key_hash: h }],
    ensures
        outputs_value(t.outputs) == SUBSIDY,
{
    assert(t.outputs.drop_last().len() == 0);
    assert(outputs_value(t.outputs.drop_last()) == 0);
    assert(t.outputs.last().value == SUBSIDY);
}

} // verus!
