use std::cell::Cell;

use dep_audit::{create_binary_file, create_wasm_file, MetadataEmitter, NullEmitter, TargetInfo};

fn target(family: &str) -> TargetInfo {
    TargetInfo {
        entries: vec![
            ("target_arch".to_string(), "x86_64".to_string()),
            ("target_family".to_string(), family.to_string()),
        ],
    }
}

/// A substitute emitter that records whether it was consulted and answers
/// with a fixed marker.
struct RecordingEmitter {
    called: Cell<bool>,
    answer: Option<Vec<u8>>,
}

impl MetadataEmitter for RecordingEmitter {
    fn create_metadata_file(
        &self,
        _target_info: &TargetInfo,
        _target_triple: &str,
        _contents: &[u8],
        _symbol_name: &str,
    ) -> Option<Vec<u8>> {
        self.called.set(true);
        self.answer.clone()
    }
}

#[test]
fn wasm_family_routes_to_the_wasm_builder() {
    let ti = target("wasm");
    let emitter = RecordingEmitter { called: Cell::new(false), answer: Some(vec![0xEE]) };
    let out = create_binary_file(&emitter, &ti, "wasm32-unknown-unknown", &[1, 2], "sym");
    assert_eq!(out, Some(create_wasm_file(&ti, &[1, 2], "sym")));
    assert!(!emitter.called.get());
}

#[test]
fn other_families_route_to_the_emitter() {
    let ti = target("unix");
    let emitter = RecordingEmitter { called: Cell::new(false), answer: Some(vec![0xEE]) };
    let out = create_binary_file(&emitter, &ti, "x86_64-unknown-linux-gnu", &[1, 2], "sym");
    assert_eq!(out, Some(vec![0xEE]));
    assert!(emitter.called.get());
}

#[test]
fn unsupported_is_propagated_verbatim() {
    let ti = target("unix");
    let emitter = RecordingEmitter { called: Cell::new(false), answer: None };
    let out = create_binary_file(&emitter, &ti, "m68k-unknown-none", &[], "sym");
    assert_eq!(out, None);
    assert!(emitter.called.get());
}

#[test]
fn null_emitter_supports_nothing() {
    let ti = target("windows");
    let out = create_binary_file(&NullEmitter, &ti, "x86_64-pc-windows-msvc", &[9], "sym");
    assert_eq!(out, None);
}

#[test]
fn null_emitter_does_not_block_wasm() {
    let ti = target("wasm");
    let out = create_binary_file(&NullEmitter, &ti, "wasm32-wasip1", &[9], "sym");
    assert_eq!(out, Some(create_wasm_file(&ti, &[9], "sym")));
}

#[test]
fn family_lookup_is_by_key() {
    let ti = TargetInfo {
        entries: vec![
            ("target_os".to_string(), "wasm".to_string()),
            ("target_family".to_string(), "unix".to_string()),
        ],
    };
    assert!(!ti.is_wasm_target());
    assert_eq!(ti.lookup("target_family").map(|s| s.as_str()), Some("unix"));
    assert_eq!(ti.lookup("absent"), None);
}
