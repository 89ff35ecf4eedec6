//! Hand-built minimal WASM module carrying an opaque payload: the module
//! header, a `linking` custom section that marks the module relocatable, and
//! a custom section holding the payload under the caller's symbol name.

use crate::target::TargetInfo;
use vstd::prelude::*;
use vstd::utf8::encode_utf8;

verus! {

/// Unsigned LEB128 encoding: the low seven bits of each byte carry the value,
/// the high bit marks that another byte follows.
pub open spec fn uleb128(n: nat) -> Seq<u8>
    decreases n,
{
    if n < 128 {
        seq![n as u8]
    } else {
        seq![(n % 128 + 128) as u8] + uleb128(n / 128)
    }
}

/// The frame of one WASM custom section named `name` with raw `content`: the
/// custom-section id byte 0, the LEB128 length of the body, then the body,
/// which is the LEB128 byte length of the UTF-8 name, the name bytes, and the
/// content, unmodified and unterminated.
pub open spec fn custom_section(name: Seq<char>, content: Seq<u8>) -> Seq<u8> {
    let nb = encode_utf8(name);
    let body_len = (uleb128(nb.len()).len() + nb.len() + content.len()) as nat;
    seq![0u8] + uleb128(body_len) + uleb128(nb.len()) + nb + content
}

/// The eight-byte header of a minimal valid WASM module: the magic bytes
/// `0 'a' 's' 'm'` followed by the little-endian version number 1.
pub open spec fn wasm_header() -> Seq<u8> {
    seq![0u8, 0x61u8, 0x73u8, 0x6du8, 1u8, 0u8, 0u8, 0u8]
}

/// The whole module the builder emits for a payload under a symbol name.
pub open spec fn wasm_module(symbol_name: Seq<char>, payload: Seq<u8>) -> Seq<u8> {
    wasm_header() + custom_section("linking"@, seq![2u8]) + custom_section(symbol_name, payload)
}

/// Payload transparency: two payloads of equal length yield modules of equal
/// length that agree on every byte outside the final payload region, and the
/// payload stands verbatim in that region; distinct payloads therefore yield
/// distinct modules that differ only there.
pub proof fn lemma_payload_transparent(symbol_name: Seq<char>, p1: Seq<u8>, p2: Seq<u8>)
    requires
        p1.len() == p2.len(),
        p1 != p2,
    ensures
        wasm_module(symbol_name, p1).len() == wasm_module(symbol_name, p2).len(),
        wasm_module(symbol_name, p1) != wasm_module(symbol_name, p2),
        forall|i: int|
            0 <= i < wasm_module(symbol_name, p1).len() - p1.len() ==> wasm_module(
                symbol_name,
                p1,
            )[i] == wasm_module(symbol_name, p2)[i],
        forall|i: int|
            0 <= i < p1.len() ==> wasm_module(symbol_name, p1)[wasm_module(
                symbol_name,
                p1,
            ).len() - p1.len() + i] == p1[i],
{
    let nb = encode_utf8(symbol_name);
    let body_len = (uleb128(nb.len()).len() + nb.len() + p1.len()) as nat;
    let prefix = wasm_header() + custom_section("linking"@, seq![2u8]) + seq![0u8] + uleb128(
        body_len,
    ) + uleb128(nb.len()) + nb;
    let a1 = wasm_module(symbol_name, p1);
    let a2 = wasm_module(symbol_name, p2);
    assert(a1 =~= prefix + p1);
    assert(a2 =~= prefix + p2);
    assert(forall|i: int| 0 <= i < p1.len() ==> (prefix + p1)[prefix.len() + i] == p1[i]);
    assert(forall|i: int| 0 <= i < p2.len() ==> (prefix + p2)[prefix.len() + i] == p2[i]);
    if a1 == a2 {
        assert(forall|i: int| 0 <= i < p1.len() ==> p1[i] == p2[i]);
        assert(p1 =~= p2);
        assert(false);
    }
}

/// The built module is a strict superset of the minimal valid empty module:
/// its first eight bytes are exactly that module, and only custom sections
/// follow, so a consumer that ignores custom sections sees a valid empty
/// module.
pub proof fn lemma_superset_of_empty_module(symbol_name: Seq<char>, payload: Seq<u8>)
    ensures
        wasm_module(symbol_name, payload).len() > wasm_header().len(),
        wasm_module(symbol_name, payload).take(8) == wasm_header(),
{
    let a = wasm_module(symbol_name, payload);
    assert(custom_section("linking"@, seq![2u8]).len() >= 1);
    assert(custom_section(symbol_name, payload).len() >= 1);
    assert(a.take(8) =~= wasm_header());
}

/// Relies on wasm_gen::write_custom_section: it appends to the buffer, in
/// order, the custom-section id byte 0, the LEB128 length of the section
/// body, the LEB128 byte length of the section name in UTF-8, the name's
/// UTF-8 bytes, and the raw content, and leaves the bytes already in the
/// buffer unchanged.
#[verifier::external_body]
fn write_custom_section(out: &mut Vec<u8>, name: &str, content: &[u8])
    ensures
        final (out)@ == old(out)@ + custom_section(name@, content@),
{
    wasm_gen::write_custom_section(out, name, content);
}

/// Builds the minimal relocatable WASM module that carries `contents` in a
/// custom section named `symbol_name`. Only the WASM target family may reach
/// this path; every consumer that ignores custom sections still sees a valid
/// empty module.
pub fn create_wasm_file(target_info: &TargetInfo, contents: &[u8], symbol_name: &str) -> (r: Vec<
    u8,
>)
    requires
        target_info.is_wasm(),
    ensures
        r@ == wasm_module(symbol_name@, contents@),
{
    let mut result: Vec<u8> = Vec::new();
    result.push(0);
    result.push(0x61);
    result.push(0x73);
    result.push(0x6d);
    result.push(1);
    result.push(0);
    result.push(0);
    result.push(0);
    proof {
        assert(result@ =~= wasm_header());
    }
    let mut linking_body: Vec<u8> = Vec::new();
    linking_body.push(2);
    proof {
        assert(linking_body@ =~= seq![2u8]);
    }
    write_custom_section(&mut result, "linking", linking_body.as_slice());
    write_custom_section(&mut result, symbol_name, contents);
    result
}

} // verus!
