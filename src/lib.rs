//! Vanity address search over the normal (non-hardened) derivation paths of an
//! extended public key.

pub mod path_counter;
pub mod derive;
pub mod prefix;
pub mod search;
