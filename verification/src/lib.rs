//! Embeds a record of a program's resolved dependency graph into its compiled
//! binary: a lossless data model for dependency information, a deterministic
//! byte codec for it, and a synthesizer that wraps the encoded payload in a
//! minimal linkable object file exposing a named symbol.

pub mod codec;
pub mod dispatch;
pub mod model;
pub mod target;
pub mod wasm;

pub use codec::{decode, encode, CodecError};
pub use dispatch::{create_binary_file, MetadataEmitter, NullEmitter};
pub use model::{DependencyGraph, ModelError, Package, PackageKind};
pub use target::TargetInfo;
pub use wasm::create_wasm_file;
