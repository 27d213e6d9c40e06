//! C2PA manifest embedding and hard binding for WebVTT subtitle and caption
//! files.

pub mod base64;
pub mod binding;
pub mod bridge;
mod digest;
pub mod embed;
mod error;
pub mod extract;
pub mod laws;
pub mod layout;
mod structured;
pub mod text;

pub use binding::{compute_data_hash, data_hash_exclusion, verify_data_hash, Exclusion, HashAlg};
pub use bridge::{extract_manifest_source, ManifestSource};
pub use embed::{embed_manifest, remove_manifest, ManifestRef};
pub use error::Error;
pub use extract::{extract_manifest, ExtractionResult};
