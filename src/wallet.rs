//! Key pairs and the addresses derived from them.
use vstd::prelude::*;
use crate::crypto::{
    sha3_256, sha3_256_of, to_base58, base58_text_of, generate_pkcs8, public_key_of_doc,
    pkcs8_public_key,
};
use crate::errors::LedgerError;
use crate::functions::{publicKey_to_hash, checksum, checksum_of, pubkey_hash_of, decode_address, payload_is_valid};
use crate::VERSION;

verus! {

/// The address text for a key hash: base-58 over the version byte, the hash
/// and the checksum of both.
pub open spec fn address_of(pub_key_hash: Seq<u8>) -> Seq<char> {
    base58_text_of(address_payload(pub_key_hash))
}

pub open spec fn address_payload(pub_key_hash: Seq<u8>) -> Seq<u8> {
    seq![VERSION] + pub_key_hash + checksum_of(seq![VERSION] + pub_key_hash)
}

/// A signing key, kept as its PKCS#8 document, and its public key bytes.
pub struct Wallet {
    pub pkcs8: Vec<u8>,
    pub public_key: Vec<u8>,
}

/// Wallets held under the names they were added with.
pub struct Wallets {
    pub wallets: Vec<(String, Wallet)>,
}

/// The position of the first wallet held under `name`.
pub open spec fn wallet_position(entries: Seq<(String, Wallet)>, name: Seq<char>) -> Option<int>
    decreases entries.len(),
{
    if entries.len() == 0 {
        None
    } else if entries[0].0@ == name {
        Some(0)
    } else {
        match wallet_position(entries.drop_first(), name) {
            Some(k) => Some(k + 1),
            None => None,
        }
    }
}

/// A found position is in range, holds a wallet under the name, and comes
/// before every other such position; none is found only where no wallet is
/// held under the name.
pub proof fn lemma_wallet_position(entries: Seq<(String, Wallet)>, name: Seq<char>)
    ensures
        wallet_position(entries, name) matches Some(k) ==> 0 <= k < entries.len() && entries[k].0@ == name
            && forall|j: int| 0 <= j < k ==> (#[trigger] entries[j]).0@ != name,
        wallet_position(entries, name) is None ==> forall|j: int| 0 <= j < entries.len() ==> (#[trigger] entries[j]).0@ != name,
    decreases entries.len(),
{
    if entries.len() > 0 {
        lemma_wallet_position(entries.drop_first(), name);
        assert forall|j: int| 1 <= j < entries.len() implies #[trigger] entries[j] == entries.drop_first()[j - 1] by {}
    }
}

/// The first position holding the name is the position found.
proof fn lemma_wallet_position_first(entries: Seq<(String, Wallet)>, name: Seq<char>, k: int)
    requires
        0 <= k < entries.len(),
        entries[k].0@ == name,
        forall|j: int| 0 <= j < k ==> (#[trigger] entries[j]).0@ != name,
    ensures
        wallet_position(entries, name) == Some(k),
{
    lemma_wallet_position(entries, name);
    if wallet_position(entries, name) is None {
        assert(entries[k].0@ != name);
    }
}

/// No two wallets are held under the same name.
pub open spec fn names_unique(entries: Seq<(String, Wallet)>) -> bool {
    forall|a: int, b: int| 0 <= a < b < entries.len() ==> (#[trigger] entries[a]).0@ != (#[trigger] entries[b]).0@
}

/// The wallets with `e` held under its name: in place of the wallet held
/// there before, or at the end.
pub open spec fn wallets_put(entries: Seq<(String, Wallet)>, e: (String, Wallet)) -> Seq<(String, Wallet)> {
    match wallet_position(entries, e.0@) {
        Some(k) => entries.update(k, e),
        None => entries.push(e),
    }
}

impl Wallet {
    /// The public key bytes are those of the key the document holds.
    pub open spec fn well_formed(&self) -> bool {
        self.public_key@ == pkcs8_public_key(self.pkcs8@)
    }

    /// A wallet over a freshly generated P-256 key pair.
    pub fn new() -> (r: Result<Wallet, LedgerError>)
        ensures
            match r {
                Ok(w) => w.well_formed(),
                Err(e) => e == LedgerError::KeyGenerationFailed,
            },
    {
        let (public_key, pkcs8) = Self::new_key_pair()?;
        Ok(Wallet { pkcs8, public_key })
    }

    fn new_key_pair() -> (r: Result<(Vec<u8>, Vec<u8>), LedgerError>)
        ensures
            match r {
                Ok((pk, doc)) => pk@ == pkcs8_public_key(doc@),
                Err(e) => e == LedgerError::KeyGenerationFailed,
            },
    {
        let pkcs8 = match generate_pkcs8() {
            Some(d) => d,
            None => {
                return Err(LedgerError::KeyGenerationFailed);
            },
        };
        let public_key = match public_key_of_doc(pkcs8.as_slice()) {
            Some(k) => k,
            None => {
                return Err(LedgerError::KeyGenerationFailed);
            },
        };
        Ok((public_key, pkcs8))
    }

    /// The SHA3-256 digest of the public key.
    pub fn get_hash(&self) -> (r: Vec<u8>)
        ensures
            r@ == sha3_256_of(self.public_key@),
    {
        sha3_256(self.public_key.as_slice())
    }

    /// The address that outputs locked to this wallet's key carry.
    pub fn get_address(&self) -> (r: String)
        ensures
            r@ == address_of(pubkey_hash_of(self.public_key@)),
            decode_address(r@) == Ok::<Seq<u8>, LedgerError>(pubkey_hash_of(self.public_key@)),
    {
        let pub_key_hash = publicKey_to_hash(&self.public_key);
        let mut versioned_payload: Vec<u8> = vec![VERSION];
        versioned_payload.extend_from_slice(pub_key_hash.as_slice());
        let check = checksum(&versioned_payload);
        let mut full_payload = versioned_payload.clone();
        full_payload.extend_from_slice(check.as_slice());
        proof {
            let h = pubkey_hash_of(self.public_key@);
            assert(versioned_payload@ =~= seq![VERSION] + h);
            assert(full_payload@ =~= address_payload(h));
            lemma_address_round_trip(h);
        }
        to_base58(full_payload.as_slice())
    }
}

/// The payload of a 20-byte key hash passes the checksum and gives the hash
/// back.
pub proof fn lemma_address_round_trip(h: Seq<u8>)
    requires
        h.len() == 20,
        checksum_of(seq![VERSION] + h).len() == 4,
    ensures
        payload_is_valid(address_payload(h)),
        address_payload(h).subrange(1, address_payload(h).len() - 4) == h,
{
    let p = address_payload(h);
    let body = seq![VERSION] + h;
    assert(p.subrange(0, p.len() - 4) =~= body);
    assert(p.subrange(p.len() - 4, p.len() as int) =~= checksum_of(body));
    assert(p.subrange(1, p.len() - 4) =~= h);
}

impl Wallets {
    /// Names are unique and every wallet held is well formed.
    pub open spec fn well_formed(&self) -> bool {
        &&& names_unique(self.wallets@)
        &&& forall|k: int| 0 <= k < self.wallets@.len() ==> (#[trigger] self.wallets@[k]).1.well_formed()
    }

    /// No wallets.
    pub fn new() -> (r: Wallets)
        ensures
            r.wallets@.len() == 0,
            r.well_formed(),
    {
        Wallets { wallets: Vec::new() }
    }

    /// The position of the first wallet held under `name`.
    fn position_of(&self, name: &String) -> (r: Option<usize>)
        ensures
            r matches Some(k) ==> k < self.wallets@.len() && wallet_position(self.wallets@, name@) == Some(k as int),
            r is None ==> wallet_position(self.wallets@, name@) is None,
    {
        proof {
            lemma_wallet_position(self.wallets@, name@);
        }
        let mut k: usize = 0;
        while k < self.wallets.len()
            invariant
                k <= self.wallets@.len(),
                forall|j: int| 0 <= j < k ==> (#[trigger] self.wallets@[j]).0@ != name@,
            decreases self.wallets@.len() - k,
        {
            if self.wallets[k].0 == *name {
                proof {
                    lemma_wallet_position_first(self.wallets@, name@, k as int);
                }
                return Some(k);
            }
            k = k + 1;
        }
        proof {
            if wallet_position(self.wallets@, name@) is Some {
                let p = wallet_position(self.wallets@, name@)->Some_0;
                assert(self.wallets@[p].0@ != name@);
            }
        }
        None
    }

    /// Holds `wallet` under `name`, in place of any wallet held there; returns
    /// its position.
    fn put_wallet(&mut self, name: String, wallet: Wallet) -> (k: usize)
        ensures
            final(self).wallets@ == wallets_put(old(self).wallets@, (name, wallet)),
            k < final(self).wallets@.len(),
            final(self).wallets@[k as int] == (name, wallet),
            wallet_position(final(self).wallets@, name@) == Some(k as int),
            old(self).well_formed() && wallet.well_formed() ==> final(self).well_formed(),
    {
        let ghost before = self.wallets@;
        let ghost e = (name, wallet);
        proof {
            lemma_wallet_position(before, e.0@);
        }
        let found = self.position_of(&name);
        let k = match found {
            Some(p) => {
                self.wallets[p] = (name, wallet);
                p
            },
            None => {
                self.wallets.push((name, wallet));
                self.wallets.len() - 1
            },
        };
        proof {
            let after = self.wallets@;
            match found {
                Some(p) => {
                    assert(after == before.update(p as int, e));
                    assert(wallet_position(before, e.0@) == Some(p as int));
                    assert(before[p as int].0@ == e.0@);
                },
                None => {
                    assert(after == before.push(e));
                },
            }
            assert(after == wallets_put(before, e));
            assert(after[k as int] == e);
            assert forall|j: int| 0 <= j < k implies (#[trigger] after[j]).0@ != e.0@ by {
                assert(after[j] == before[j]);
            }
            lemma_wallet_position_first(after, e.0@, k as int);
            if names_unique(before) {
                assert forall|x: int, y: int| 0 <= x < y < after.len() implies (#[trigger] after[x]).0@
                    != (#[trigger] after[y]).0@ by {
                    if x != k {
                        assert(after[x] == before[x]);
                    }
                    if y != k {
                        assert(after[y] == before[y]);
                    }
                    if x == k && found is Some {
                        assert(before[k as int].0@ == e.0@);
                    }
                    if y == k && found is Some {
                        assert(before[k as int].0@ == e.0@);
                    }
                }
            }
            assert forall|j: int| 0 <= j < after.len() && j != k implies #[trigger] after[j] == before[j] by {}
        }
        k
    }

    /// The first wallet held under `address`.
    pub fn get_wallet(&self, address: &str) -> (r: Option<&Wallet>)
        ensures
            match wallet_position(self.wallets@, address@) {
                Some(k) => r == Some(&self.wallets@[k].1),
                None => r is None,
            },
    {
        let name = address.to_owned();
        let mut k: usize = 0;
        assert(self.wallets@.subrange(0, self.wallets@.len() as int) =~= self.wallets@);
        while k < self.wallets.len()
            invariant
                k <= self.wallets@.len(),
                name@ == address@,
                wallet_position(self.wallets@, address@) == match wallet_position(
                    self.wallets@.subrange(k as int, self.wallets@.len() as int),
                    address@,
                ) {
                    Some(j) => Some(j + k),
                    None => None,
                },
            decreases self.wallets@.len() - k,
        {
            let ghost rest = self.wallets@.subrange(k as int, self.wallets@.len() as int);
            assert(rest.drop_first() =~= self.wallets@.subrange(k + 1, self.wallets@.len() as int));
            if self.wallets[k].0 == name {
                return Some(&self.wallets[k].1);
            }
            k = k + 1;
        }
        None
    }

    /// Holds a fresh wallet under `id`, in place of any wallet held there,
    /// and returns it.
    pub fn add_wallet(&mut self, id: String) -> (r: Result<&Wallet, LedgerError>)
        ensures
            match r {
                Ok(w) => {
                    &&& final(self).wallets@ == wallets_put(old(self).wallets@, (id, *w))
                    &&& wallet_position(final(self).wallets@, id@) matches Some(k) && *w == final(self).wallets@[k].1
                    &&& w.well_formed()
                },
                Err(e) => e == LedgerError::KeyGenerationFailed && final(self).wallets@ == old(self).wallets@,
            },
            old(self).well_formed() ==> final(self).well_formed(),
    {
        let wallet = Wallet::new()?;
        let k = self.put_wallet(id, wallet);
        Ok(&self.wallets[k].1)
    }

    /// Holds a fresh wallet under its own address and returns that address.
    pub fn new_wallet(&mut self) -> (r: Result<String, LedgerError>)
        ensures
            match r {
                Ok(a) => wallet_position(final(self).wallets@, a@) matches Some(k) && {
                    let w = final(self).wallets@[k].1;
                    &&& final(self).wallets@ == wallets_put(old(self).wallets@, (final(self).wallets@[k].0, w))
                    &&& final(self).wallets@[k].0@ == a@
                    &&& w.well_formed()
                    &&& a@ == address_of(pubkey_hash_of(w.public_key@))
                    &&& decode_address(a@) == Ok::<Seq<u8>, LedgerError>(pubkey_hash_of(w.public_key@))
                },
                Err(e) => e == LedgerError::KeyGenerationFailed && final(self).wallets@ == old(self).wallets@,
            },
            old(self).well_formed() ==> final(self).well_formed(),
    {
        let wallet = Wallet::new()?;
        let address = wallet.get_address();
        let _k = self.put_wallet(address.clone(), wallet);
        Ok(address)
    }
}

} // verus!
