use dep_audit::{create_wasm_file, TargetInfo};

fn wasm_target() -> TargetInfo {
    TargetInfo {
        entries: vec![("target_family".to_string(), "wasm".to_string())],
    }
}

#[test]
fn empty_payload_is_byte_exact() {
    let out = create_wasm_file(&wasm_target(), &[], "audit");
    let mut expected: Vec<u8> = vec![0, 0x61, 0x73, 0x6D, 1, 0, 0, 0];
    // linking section: id, body length 9, name length 7, "linking", version 2
    expected.extend_from_slice(&[0, 9, 7]);
    expected.extend_from_slice(b"linking");
    expected.push(2);
    // payload section: id, body length 6, name length 5, "audit", no content
    expected.extend_from_slice(&[0, 6, 5]);
    expected.extend_from_slice(b"audit");
    assert_eq!(out, expected);
}

#[test]
fn example_scenario_layout() {
    let payload = [0x7B, 0x7D, 0x00];
    let out = create_wasm_file(&wasm_target(), &payload, "rust_dependency_audit");
    // magic and version
    assert_eq!(&out[0..8], &[0, b'a', b's', b'm', 1, 0, 0, 0]);
    // linking section frame
    assert_eq!(&out[8..11], &[0, 9, 7]);
    assert_eq!(&out[11..18], b"linking");
    assert_eq!(out[18], 2);
    // payload section: body = 1 (name length byte) + 21 (name) + 3 (content)
    assert_eq!(&out[19..22], &[0, 25, 21]);
    assert_eq!(&out[22..43], b"rust_dependency_audit");
    assert_eq!(&out[43..], &payload);
    assert_eq!(out.len(), 46);
}

#[test]
fn equal_length_payloads_differ_only_in_content() {
    let p1 = [1u8, 2, 3];
    let p2 = [1u8, 2, 4];
    let a = create_wasm_file(&wasm_target(), &p1, "sym");
    let b = create_wasm_file(&wasm_target(), &p2, "sym");
    assert_eq!(a.len(), b.len());
    assert_ne!(a, b);
    let cut = a.len() - p1.len();
    assert_eq!(&a[..cut], &b[..cut]);
    assert_eq!(&a[cut..], &p1);
    assert_eq!(&b[cut..], &p2);
}

#[test]
fn long_name_uses_two_leb128_bytes() {
    // a 200-character name: the section body length needs two LEB128 bytes.
    let name = "n".repeat(200);
    let out = create_wasm_file(&wasm_target(), &[0xAA], &name);
    assert_eq!(out[19], 0); // custom section id
    // body length = 2 (leb of name length 200) + 200 + 1 = 203 -> 0xCB 0x01
    assert_eq!(&out[20..22], &[0xCB, 0x01]);
    assert_eq!(&out[22..24], &[0xC8, 0x01]); // name length 200 in LEB128
    assert_eq!(out[out.len() - 1], 0xAA);
}

#[test]
fn non_ascii_symbol_name_counts_utf8_bytes() {
    // the symbol name section lengths count UTF-8 bytes, not characters.
    let out = create_wasm_file(&wasm_target(), &[7], "\u{FC}");
    assert_eq!(&out[19..22], &[0, 4, 2]); // body: 1 + 2 name bytes + 1 content
    assert_eq!(&out[22..24], &[0xC3, 0xBC]);
    assert_eq!(out[24], 7);
    assert_eq!(out.len(), 25);
}
