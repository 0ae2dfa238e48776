//! Child key derivation and address rendering, done by the `bitcoin` crate.
//!
//! A base key is handed around as its 78-byte serialization (BIP 32); what
//! comes out of a derivation is named by `derived_address`.

use bitcoin::secp256k1::SECP256K1;
use bitcoin::util::bip32::{ChildNumber, ExtendedPubKey};
use bitcoin::{Address, Network};
use vstd::prelude::*;

verus! {

/// Length of a serialized extended key.
pub const SERIALIZED_KEY_LEN: usize = 78;

/// Deriving `steps` levels below the serialized key `key` keeps the depth, its
/// fifth byte, within a byte. Only a key of the serialized length is derived from.
pub open spec fn depth_fits(key: Seq<u8>, steps: nat) -> bool {
    key.len() == SERIALIZED_KEY_LEN ==> key[4] as nat + steps <= 255
}

/// The text of the P2WPKH address on the main network of the key reached from
/// the serialized extended public key `key` by normal child derivation along
/// `path`; `None` where `key` does not decode, an index is not a normal one, or
/// a derivation step fails.
pub uninterp spec fn derived_address(key: Seq<u8>, path: Seq<u32>) -> Option<Seq<char>>;

/// Relies on `ExtendedPubKey::decode`, `ChildNumber::from_normal_idx`,
/// `ExtendedPubKey::derive_pub` and `Address::p2wpkh` with its `Display`:
/// the address text at `path` below `key`, a function of the two alone.
/// `derive_pub` adds one to the depth byte at each step, hence `depth_fits`.
/// The curve arithmetic runs on secp256k1's shared global context.
#[verifier::external_body]
pub(crate) fn derive_address(key: &[u8], path: &[u32]) -> (r: Option<String>)
    requires
        depth_fits(key@, path@.len()),
    ensures
        match r {
            Some(a) => derived_address(key@, path@) == Some(a@),
            None => derived_address(key@, path@) is None,
        },
{
    let xpub = ExtendedPubKey::decode(key).ok()?;
    let children: Vec<ChildNumber> =
        path.iter().map(|i| ChildNumber::from_normal_idx(*i).ok()).collect::<Option<_>>()?;
    let derived = xpub.derive_pub(&**SECP256K1, &children).ok()?;
    let address = Address::p2wpkh(&derived.public_key, Network::Bitcoin).ok()?;
    Some(address.to_string())
}

} // verus!
