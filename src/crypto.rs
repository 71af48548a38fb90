//! The cryptographic primitives the ledger relies on, each taken from an
//! outside crate. Digests and the signature check are deterministic, so their
//! results carry names; key generation and signing are randomised.
use vstd::prelude::*;
use sha3::Digest;
use rust_base58::{FromBase58, ToBase58};
use ring::signature::KeyPair;

verus! {

/// The SHA3-256 digest of a byte string.
pub uninterp spec fn sha3_256_of(data: Seq<u8>) -> Seq<u8>;

/// The RIPEMD-160 digest of a byte string.
pub uninterp spec fn ripemd160_of(data: Seq<u8>) -> Seq<u8>;

/// The base-58 text (Bitcoin alphabet) of a byte string.
pub uninterp spec fn base58_text_of(data: Seq<u8>) -> Seq<char>;

/// The bytes that a base-58 text decodes to, or `None` where the text holds a
/// character outside the alphabet.
pub uninterp spec fn base58_bytes_of(text: Seq<char>) -> Option<Seq<u8>>;

/// Whether an ECDSA P-256/SHA-256 signature (ASN.1 form) over `message`
/// checks out under the public key given as bytes.
pub uninterp spec fn ecdsa_p256_accepts(public_key: Seq<u8>, message: Seq<u8>, signature: Seq<u8>) -> bool;

/// Relies on `sha3::Sha3_256` (through `Digest::digest`): a 32-byte digest that
/// depends on the input alone.
#[verifier::external_body]
pub(crate) fn sha3_256(data: &[u8]) -> (r: Vec<u8>)
    ensures
        r@ == sha3_256_of(data@),
        r@.len() == 32,
{
    sha3::Sha3_256::digest(data).to_vec()
}

/// Relies on `ripemd::Ripemd160` (through `Digest::digest`): a 20-byte digest
/// that depends on the input alone.
#[verifier::external_body]
pub(crate) fn ripemd160(data: &[u8]) -> (r: Vec<u8>)
    ensures
        r@ == ripemd160_of(data@),
        r@.len() == 20,
{
    ripemd::Ripemd160::digest(data).to_vec()
}

/// Relies on `rust_base58::ToBase58::to_base58` for `[u8]`, which writes each
/// leading zero byte as the alphabet's first character and the rest as a
/// base-58 number; `from_base58` reads both back, so the text decodes to the
/// bytes it came from.
#[verifier::external_body]
pub(crate) fn to_base58(data: &[u8]) -> (r: String)
    ensures
        r@ == base58_text_of(data@),
        base58_bytes_of(r@) == Some(data@),
{
    data.to_base58()
}

/// Relies on `rust_base58::FromBase58::from_base58` for `str`, whose one error
/// is a character outside the alphabet.
#[verifier::external_body]
pub(crate) fn from_base58(text: &str) -> (r: Option<Vec<u8>>)
    ensures
        match r {
            Some(bytes) => base58_bytes_of(text@) == Some(bytes@),
            None => base58_bytes_of(text@) is None,
        },
{
    text.from_base58().ok()
}

/// Relies on `ring::signature::UnparsedPublicKey::verify` with
/// `ECDSA_P256_SHA256_ASN1`: the verdict depends on its three inputs alone.
#[verifier::external_body]
pub(crate) fn ecdsa_verify(public_key: &[u8], message: &[u8], signature: &[u8]) -> (r: bool)
    ensures
        r == ecdsa_p256_accepts(public_key@, message@, signature@),
{
    ring::signature::UnparsedPublicKey::new(&ring::signature::ECDSA_P256_SHA256_ASN1, public_key)
        .verify(message, signature)
        .is_ok()
}

/// The public key (uncompressed point bytes) held in a PKCS#8 document for a
/// P-256 key pair.
pub uninterp spec fn pkcs8_public_key(doc: Seq<u8>) -> Seq<u8>;

/// Relies on `ring::signature::EcdsaKeyPair::from_pkcs8` with
/// `ECDSA_P256_SHA256_ASN1_SIGNING`, which checks that the document's public
/// key matches its private key, and on `EcdsaKeyPair::sign`, whose signature
/// verifies under that public key with `ECDSA_P256_SHA256_ASN1`. The signature
/// itself is randomised; `None` where the document is rejected or signing
/// fails.
#[verifier::external_body]
pub(crate) fn ecdsa_sign_doc(pkcs8: &[u8], message: &[u8]) -> (r: Option<Vec<u8>>)
    ensures
        r matches Some(sig) ==> ecdsa_p256_accepts(pkcs8_public_key(pkcs8@), message@, sig@),
{
    let rng = ring::rand::SystemRandom::new();
    let key_pair = ring::signature::EcdsaKeyPair::from_pkcs8(&ring::signature::ECDSA_P256_SHA256_ASN1_SIGNING, pkcs8, &rng).ok()?;
    key_pair.sign(&rng, message).ok().map(|s| s.as_ref().to_vec())
}

/// Relies on `ring::signature::EcdsaKeyPair::generate_pkcs8` with
/// `ECDSA_P256_SHA256_ASN1_SIGNING` and a fresh `SystemRandom`: a new random
/// private key as a PKCS#8 document.
#[verifier::external_body]
pub(crate) fn generate_pkcs8() -> (r: Option<Vec<u8>>) {
    let rng = ring::rand::SystemRandom::new();
    ring::signature::EcdsaKeyPair::generate_pkcs8(&ring::signature::ECDSA_P256_SHA256_ASN1_SIGNING, &rng)
        .ok()
        .map(|d| d.as_ref().to_vec())
}

/// Relies on `ring::signature::EcdsaKeyPair::from_pkcs8` with
/// `ECDSA_P256_SHA256_ASN1_SIGNING` and on `KeyPair::public_key`: the public
/// key that the document holds; `None` where the document is rejected.
#[verifier::external_body]
pub(crate) fn public_key_of_doc(pkcs8: &[u8]) -> (r: Option<Vec<u8>>)
    ensures
        r matches Some(pk) ==> pk@ == pkcs8_public_key(pkcs8@),
{
    let rng = ring::rand::SystemRandom::new();
    ring::signature::EcdsaKeyPair::from_pkcs8(&ring::signature::ECDSA_P256_SHA256_ASN1_SIGNING, pkcs8, &rng)
        .ok()
        .map(|k| k.public_key().as_ref().to_vec())
}

} // verus!
