//! Public-key hashes and the address text that carries them.
use vstd::prelude::*;
use crate::crypto::{sha3_256, sha3_256_of, ripemd160, ripemd160_of, from_base58, base58_bytes_of};
use crate::errors::LedgerError;
use crate::ADDRESS_CHECKSUM_LEN;

verus! {

/// The hash that locks outputs to a public key: RIPEMD-160 over SHA3-256.
pub open spec fn pubkey_hash_of(public_key: Seq<u8>) -> Seq<u8> {
    ripemd160_of(sha3_256_of(public_key))
}

/// The address checksum: the first four bytes of a double SHA3-256.
pub open spec fn checksum_of(payload: Seq<u8>) -> Seq<u8> {
    sha3_256_of(sha3_256_of(payload)).subrange(0, 4)
}

/// A decoded address payload: version byte, key hash, then four checksum bytes
/// that match everything before them.
pub open spec fn payload_is_valid(p: Seq<u8>) -> bool {
    &&& p.len() >= 5
    &&& checksum_of(p.subrange(0, p.len() - 4)) == p.subrange(p.len() - 4, p.len() as int)
}

/// What an address text stands for: the key hash it carries, or why it
/// carries none.
pub open spec fn decode_address(address: Seq<char>) -> Result<Seq<u8>, LedgerError> {
    match base58_bytes_of(address) {
        None => Err(LedgerError::InvalidBase58),
        Some(p) => if p.len() < 5 {
            Err(LedgerError::AddressTooShort)
        } else if !payload_is_valid(p) {
            Err(LedgerError::ChecksumMismatch)
        } else {
            Ok(p.subrange(1, p.len() - 4))
        },
    }
}

/// Hashes a public key to the form that outputs are locked with.
#[allow(non_snake_case)]
pub fn publicKey_to_hash(public_key: &Vec<u8>) -> (r: Vec<u8>)
    ensures
        r@ == pubkey_hash_of(public_key@),
        r@.len() == 20,
{
    let digest = sha3_256(public_key.as_slice());
    ripemd160(digest.as_slice())
}

/// The checksum of an address payload.
pub fn checksum(payload: &Vec<u8>) -> (r: Vec<u8>)
    ensures
        r@ == checksum_of(payload@),
        r@.len() == 4,
{
    let first = sha3_256(payload.as_slice());
    let second = sha3_256(first.as_slice());
    let mut r: Vec<u8> = Vec::new();
    let mut i: usize = 0;
    while i < ADDRESS_CHECKSUM_LEN
        invariant
            i <= 4,
            second@.len() == 32,
            r@ == second@.subrange(0, i as int),
        decreases 4 - i,
    {
        r.push(second[i]);
        i = i + 1;
        assert(r@ =~= second@.subrange(0, i as int));
    }
    r
}

/// Whether an address text decodes to a payload whose checksum matches.
pub fn validate_address(address: &str) -> (r: bool)
    ensures
        r == decode_address(address@) is Ok,
{
    match address_to_pubkeyhash(address) {
        Ok(_) => true,
        Err(_) => false,
    }
}

/// The key hash that an address carries, once its checksum has been checked.
pub fn address_to_pubkeyhash(address: &str) -> (r: Result<Vec<u8>, LedgerError>)
    ensures
        match decode_address(address@) {
            Ok(h) => r matches Ok(v) && v@ == h,
            Err(e) => r == Err::<Vec<u8>, LedgerError>(e),
        },
{
    let payload = match from_base58(address) {
        Some(p) => p,
        None => {
            return Err(LedgerError::InvalidBase58);
        },
    };
    let n = payload.len();
    if n < 5 {
        return Err(LedgerError::AddressTooShort);
    }
    let body = slice_of(&payload, 0, n - ADDRESS_CHECKSUM_LEN);
    let actual = slice_of(&payload, n - ADDRESS_CHECKSUM_LEN, n);
    let expected = checksum(&body);
    if !bytes_equal(&actual, &expected) {
        return Err(LedgerError::ChecksumMismatch);
    }
    Ok(slice_of(&payload, 1, n - ADDRESS_CHECKSUM_LEN))
}

/// The bytes of `v` from `start` up to `end`.
pub fn slice_of(v: &Vec<u8>, start: usize, end: usize) -> (r: Vec<u8>)
    requires
        start <= end <= v@.len(),
    ensures
        r@ == v@.subrange(start as int, end as int),
{
    let mut r: Vec<u8> = Vec::new();
    let mut i: usize = start;
    while i < end
        invariant
            start <= i <= end <= v@.len(),
            r@ == v@.subrange(start as int, i as int),
        decreases end - i,
    {
        r.push(v[i]);
        i = i + 1;
        assert(r@ =~= v@.subrange(start as int, i as int));
    }
    r
}

/// Whether two byte strings are equal.
pub fn bytes_equal(a: &Vec<u8>, b: &Vec<u8>) -> (r: bool)
    ensures
        r == (a@ == b@),
{
    if a.len() != b.len() {
        return false;
    }
    let mut i: usize = 0;
    while i < a.len()
        invariant
            a@.len() == b@.len(),
            i <= a@.len(),
            forall|j: int| 0 <= j < i ==> a@[j] == b@[j],
        decreases a@.len() - i,
    {
        if a[i] != b[i] {
            return false;
        }
        i = i + 1;
    }
    assert(a@ =~= b@);
    true
}

} // verus!
