//! Compiles spending policies and Miniscript fragments into a Taproot output:
//! tagged hashes, the unspendable internal key, the weighted script tree with
//! its merkle proofs, the tweaked output key and the per-network addresses.

pub mod bytes;
pub mod descriptor;
pub mod error;
pub mod fragments;
pub mod hash;
pub mod heap;
pub mod key;
pub mod keytab;
pub mod policy;
pub mod script;
pub mod taproot;
pub mod text;
pub mod tree;

pub use crate::descriptor::{
    get_descriptor_types, get_script_type, get_threshold_count, DescriptorTypeStruct,
};
pub use crate::fragments::Fragments;
pub use crate::keytab::KeyTab;
pub use crate::policy::compile;
pub use crate::taproot::taproot;
