//! The proof-of-work rule: a block is admitted at the first nonce whose digest,
//! read as a big-endian number, falls below `2^(256 - TARGET_BITS)`.
use vstd::prelude::*;
use crate::block::{Block, BlockView, transactions_bytes};
use crate::crypto::{sha3_256, sha3_256_of};
use crate::errors::LedgerError;
use crate::{MAX_NONCE, TARGET_BITS};

verus! {

/// The search for a nonce over one block.
pub struct ProofOfWork<'a> {
    pub block: &'a Block,
    /// The difficulty: the target is `2^(256 - target_bits)`.
    pub target_bits: u32,
}

pub open spec fn pow2(n: nat) -> nat
    decreases n,
{
    if n == 0 {
        1
    } else {
        2 * pow2((n - 1) as nat)
    }
}

pub open spec fn pow256(n: nat) -> nat
    decreases n,
{
    if n == 0 {
        1
    } else {
        256 * pow256((n - 1) as nat)
    }
}

/// A byte string read as a big-endian number.
pub open spec fn be_value(s: Seq<u8>) -> nat
    decreases s.len(),
{
    if s.len() == 0 {
        0
    } else {
        (s[0] as nat) * pow256((s.len() - 1) as nat) + be_value(s.drop_first())
    }
}

/// The largest digest value plus one that the search accepts.
pub open spec fn target() -> nat {
    pow2((256 - TARGET_BITS) as nat)
}

/// Whether a digest falls below the target.
pub open spec fn meets_target(hash: Seq<u8>) -> bool {
    be_value(hash) < target()
}

/// The lowercase hexadecimal digit for a value below 16.
pub open spec fn hex_digit(d: nat) -> u8 {
    if d < 10 {
        (48 + d) as u8
    } else {
        (87 + d) as u8
    }
}

/// The lowercase hexadecimal text of a number, without leading zeros.
pub open spec fn hex_text(n: nat) -> Seq<u8>
    decreases n,
{
    if n < 16 {
        seq![hex_digit(n)]
    } else {
        hex_text(n / 16) + seq![hex_digit(n % 16)]
    }
}

/// The bytes hashed at a nonce: the previous hash, the encoded transactions,
/// and the hexadecimal text of the timestamp, the difficulty and the nonce.
pub open spec fn pow_data(b: BlockView, nonce: u32) -> Seq<u8> {
    b.previous_block_hash + transactions_bytes(b.transactions) + hex_text(b.timestamp as nat)
        + hex_text(TARGET_BITS as nat) + hex_text(nonce as nat)
}

/// The digest at a nonce.
pub open spec fn pow_digest(b: BlockView, nonce: u32) -> Seq<u8> {
    sha3_256_of(pow_data(b, nonce))
}

/// The digest at `nonce` meets the target and no smaller nonce's does.
pub open spec fn found_at(b: BlockView, nonce: u32) -> bool {
    &&& meets_target(pow_digest(b, nonce))
    &&& forall|m: u32| #![trigger pow_digest(b, m)] m < nonce ==> !meets_target(pow_digest(b, m))
}

/// The digest does not depend on the block's own hash and nonce fields.
pub proof fn lemma_digest_ignores_seal(a: BlockView, b: BlockView, nonce: u32)
    requires
        a.timestamp == b.timestamp,
        a.previous_block_hash == b.previous_block_hash,
        a.transactions == b.transactions,
    ensures
        forall|m: u32| #![trigger pow_digest(b, m)] pow_digest(a, m) == pow_digest(b, m),
        found_at(a, nonce) == found_at(b, nonce),
{
    assert forall|m: u32| #![trigger pow_digest(b, m)] pow_digest(a, m) == pow_digest(b, m) by {
        assert(pow_data(a, m) == pow_data(b, m));
    }
    if found_at(a, nonce) {
        assert forall|m: u32| #![trigger pow_digest(b, m)] m < nonce implies !meets_target(pow_digest(b, m)) by {
            assert(pow_digest(a, m) == pow_digest(b, m));
        }
        assert(pow_digest(a, nonce) == pow_digest(b, nonce));
    }
    if found_at(b, nonce) {
        assert forall|m: u32| #![trigger pow_digest(a, m)] m < nonce implies !meets_target(pow_digest(a, m)) by {
            assert(pow_digest(a, m) == pow_digest(b, m));
        }
        assert(pow_digest(a, nonce) == pow_digest(b, nonce));
    }
}

proof fn lemma_pow2_add8(n: nat)
    ensures
        pow2(n + 8) == 256 * pow2(n),
{
    reveal_with_fuel(pow2, 9);
}

proof fn lemma_pow2_target(k: nat)
    ensures
        pow2(8 * k + 4) == 16 * pow256(k),
    decreases k,
{
    if k == 0 {
        reveal_with_fuel(pow2, 5);
    } else {
        lemma_pow2_target((k - 1) as nat);
        lemma_pow2_add8((8 * (k - 1) + 4) as nat);
        assert(8 * k + 4 == (8 * (k - 1) + 4) + 8);
    }
}

proof fn lemma_be_value_bound(s: Seq<u8>)
    ensures
        be_value(s) < pow256(s.len()),
    decreases s.len(),
{
    if s.len() > 0 {
        lemma_be_value_bound(s.drop_first());
        let p = pow256((s.len() - 1) as nat);
        let rest = be_value(s.drop_first());
        let d = s[0] as nat;
        assert(d * p + rest < 256 * p) by (nonlinear_arith)
            requires
                d < 256,
                rest < p,
        ;
    }
}

/// For a 32-byte digest, meeting the target means a zero first byte and a
/// second byte below 16.
proof fn lemma_meets_target_bytes(h: Seq<u8>)
    requires
        h.len() == 32,
    ensures
        meets_target(h) == (h[0] == 0 && h[1] < 16),
{
    let h1 = h.drop_first();
    let h2 = h1.drop_first();
    lemma_be_value_bound(h2);
    lemma_pow2_target(30);
    assert(pow256(31) == 256 * pow256(30));
    let p = pow256(30);
    let a = h[0] as nat;
    let b = h1[0] as nat;
    let c = be_value(h2);
    assert(be_value(h) == a * (256 * p) + be_value(h1));
    assert(be_value(h1) == b * p + c);
    assert(target() == 16 * p);
    assert((a * (256 * p) + b * p + c < 16 * p) == (a == 0 && b < 16)) by (nonlinear_arith)
        requires
            c < p,
            p > 0,
            b < 256,
    ;
}

/// Appends the lowercase hexadecimal text of `n`.
fn push_hex(out: &mut Vec<u8>, n: u64)
    ensures
        final(out)@ == old(out)@ + hex_text(n as nat),
    decreases n,
{
    if n >= 16 {
        push_hex(out, n / 16);
    }
    let d = n % 16;
    let digit: u8 = if d < 10 { 48 + d as u8 } else { 87 + d as u8 };
    out.push(digit);
    assert(out@ =~= old(out)@ + hex_text(n as nat));
}

/// The lowercase hexadecimal text of `value`, as bytes.
pub fn int_to_hex(value: u64) -> (r: Vec<u8>)
    ensures
        r@ == hex_text(value as nat),
{
    let mut out: Vec<u8> = Vec::new();
    push_hex(&mut out, value);
    assert(out@ =~= hex_text(value as nat));
    out
}

/// Whether a 32-byte digest falls below the target.
pub fn hash_meets_target(hash: &Vec<u8>) -> (r: bool)
    requires
        hash@.len() == 32,
    ensures
        r == meets_target(hash@),
{
    proof {
        lemma_meets_target_bytes(hash@);
    }
    hash[0] == 0 && hash[1] < 16
}

impl<'a> ProofOfWork<'a> {
    /// The search over `block` at the ledger's difficulty.
    pub fn new(block: &'a Block) -> (r: ProofOfWork<'a>)
        ensures
            r.block == block,
            r.target_bits == TARGET_BITS,
    {
        ProofOfWork { block, target_bits: TARGET_BITS }
    }

    /// The bytes hashed at `nonce`.
    pub fn prepare_data(&self, nonce: u32) -> (r: Vec<u8>)
        ensures
            r@ == pow_data(self.block@, nonce),
    {
        let mut data: Vec<u8> = self.block.previous_block_hash.clone();
        let txs = self.block.serialize_transactions();
        data.extend_from_slice(txs.as_slice());
        let ts = int_to_hex(self.block.timestamp);
        data.extend_from_slice(ts.as_slice());
        let bits = int_to_hex(TARGET_BITS as u64);
        data.extend_from_slice(bits.as_slice());
        let n = int_to_hex(nonce as u64);
        data.extend_from_slice(n.as_slice());
        assert(data@ =~= pow_data(self.block@, nonce));
        data
    }

    /// The first nonce below `MAX_NONCE` whose digest meets the target, with
    /// that digest; `NonceExhausted` where there is none.
    pub fn run(&self) -> (r: Result<(u32, Vec<u8>), LedgerError>)
        ensures
            match r {
                Ok((nonce, hash)) => {
                    &&& nonce < MAX_NONCE
                    &&& found_at(self.block@, nonce)
                    &&& hash@ == pow_digest(self.block@, nonce)
                    &&& hash@.len() == 32
                },
                Err(e) => {
                    &&& e == LedgerError::NonceExhausted
                    &&& forall|m: u32| #![trigger found_at(self.block@, m)] m < MAX_NONCE ==> !found_at(self.block@, m)
                },
            },
    {
        let mut nonce: u32 = 0;
        while nonce < MAX_NONCE
            invariant
                nonce <= MAX_NONCE,
                forall|m: u32| #![trigger pow_digest(self.block@, m)] m < nonce ==> !meets_target(pow_digest(self.block@, m)),
            decreases MAX_NONCE - nonce,
        {
            let data = self.prepare_data(nonce);
            let hash = sha3_256(data.as_slice());
            if hash_meets_target(&hash) {
                return Ok((nonce, hash));
            }
            nonce = nonce + 1;
        }
        assert forall|m: u32| #![trigger found_at(self.block@, m)] m < MAX_NONCE implies !found_at(self.block@, m) by {
            assert(!meets_target(pow_digest(self.block@, m)));
        }
        Err(LedgerError::NonceExhausted)
    }

    /// Whether the digest at the block's own nonce meets the target.
    pub fn validate(&self) -> (r: bool)
        ensures
            r == meets_target(pow_digest(self.block@, self.block.nonce)),
    {
        let data = self.prepare_data(self.block.nonce);
        let hash = sha3_256(data.as_slice());
        hash_meets_target(&hash)
    }
}

} // verus!
