//! Routes an embedding request to the hand-built WASM path or to a generic
//! object-file emitter, and propagates the emitter's "unsupported target"
//! outcome unchanged.

use crate::target::TargetInfo;
use crate::wasm::{create_wasm_file, wasm_module};
use vstd::prelude::*;

verus! {

/// A generic object-file emitter: the collaborator that synthesizes a minimal
/// ELF, Mach-O or PE/COFF object holding `contents` in a section named
/// `symbol_name`, or reports the target as unsupported. Implementations must
/// return `None` rather than emit malformed output for an unknown target.
pub trait MetadataEmitter {
    /// What the emitter produces for a request, or `None` when the target
    /// triple has no object-file convention the emitter knows. Unless an
    /// implementation overrides this, it promises to produce nothing.
    open spec fn emits(
        &self,
        target_info: Seq<(Seq<char>, Seq<char>)>,
        target_triple: Seq<char>,
        contents: Seq<u8>,
        symbol_name: Seq<char>,
    ) -> Option<Seq<u8>> {
        None
    }

    /// Synthesizes the object bytes for the request, or returns `None` when
    /// the target is unsupported.
    fn create_metadata_file(
        &self,
        target_info: &TargetInfo,
        target_triple: &str,
        contents: &[u8],
        symbol_name: &str,
    ) -> (r: Option<Vec<u8>>)
        ensures
            match r {
                Some(v) => self.emits(target_info@, target_triple@, contents@, symbol_name@)
                    == Some(v@),
                None => self.emits(target_info@, target_triple@, contents@, symbol_name@) is None,
            },
    ;
}

/// An emitter that knows no object-file convention: every request is
/// unsupported.
pub struct NullEmitter;

impl MetadataEmitter for NullEmitter {
    fn create_metadata_file(
        &self,
        target_info: &TargetInfo,
        target_triple: &str,
        contents: &[u8],
        symbol_name: &str,
    ) -> (r: Option<Vec<u8>>) {
        None
    }
}

/// Creates a linkable object file (WASM by the hand-built path, anything else
/// by the given emitter) that carries `contents` in a section named
/// `symbol_name`. Returns `None` exactly when the target family is not wasm
/// and the emitter does not support the target.
pub fn create_binary_file<E: MetadataEmitter>(
    emitter: &E,
    target_info: &TargetInfo,
    target_triple: &str,
    contents: &[u8],
    symbol_name: &str,
) -> (r: Option<Vec<u8>>)
    requires
        target_info.has_family(),
    ensures
        target_info.is_wasm() ==> (r matches Some(v) && v@ == wasm_module(
            symbol_name@,
            contents@,
        )),
        !target_info.is_wasm() ==> match r {
            Some(v) => emitter.emits(target_info@, target_triple@, contents@, symbol_name@)
                == Some(v@),
            None => emitter.emits(target_info@, target_triple@, contents@, symbol_name@) is None,
        },
{
    if target_info.is_wasm_target() {
        Some(create_wasm_file(target_info, contents, symbol_name))
    } else {
        emitter.create_metadata_file(target_info, target_triple, contents, symbol_name)
    }
}

} // verus!
