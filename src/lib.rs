//! Key-derivation and descriptor-generation engine for bitcoin public-key
//! tracking accounts: index ranges, BIP32 derivation components, output
//! script templates and deduplicated UTXO resolution.

pub mod text;
pub mod ranges;
pub mod path;
pub mod keys;
pub mod derivation;
pub mod order;
pub mod scripts;
pub mod utxo;
