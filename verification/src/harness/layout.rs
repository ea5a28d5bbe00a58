//! The harness templates read as literal text and placeholders.
use vstd::prelude::*;
use vstd::utf8::*;
use vstd::string::*;
use super::filled::{
    contains, is_placeholder, lemma_replace_stage, lemma_text_contains_pair, lemma_text_no_percent,
    name_byte, no_percent, pieces_ok, pieces_text, placeholders_ok, values_ok, Piece,
};
use super::{
    default_stem, file_stem_of, go_import, go_package_of, harness_text, last_before,
    lemma_last_before, lemma_path_trim_end, package_prefix_of, path_file_name, path_stem,
    path_trim_end, python_module_of, render, render_with, rust_module_of, safe_name_of, template_of,
    underscored,
};
use crate::proto::{FileView, MessageView};
use crate::text::replace_all;
use super::templates;

verus! {

broadcast use vstd::seq::group_seq_axioms;

/// The placeholders, in the order in which rendering replaces them.
pub open spec fn placeholder_list() -> Seq<Seq<u8>> {
    seq![
        "%MESSAGE_NAME%".spec_bytes(),
        "%SAFE_NAME%".spec_bytes(),
        "%PROTO_PACKAGE%".spec_bytes(),
        "%PROTO_MODULE%".spec_bytes(),
        "%PROTO_MODULE_RUST%".spec_bytes(),
        "%PROTO_BASENAME%".spec_bytes(),
        "%PROTO_IMPORT%".spec_bytes(),
        "%GO_PACKAGE%".spec_bytes(),
    ]
}

/// The placeholders are `%NAME%` markers, each different from the others.
pub proof fn lemma_placeholder_list()
    ensures
        placeholder_list().len() == 8,
        placeholders_ok(placeholder_list()),
        placeholder_list()[0] == seq![37u8, 77, 69, 83, 83, 65, 71, 69, 95, 78, 65, 77, 69, 37],
        placeholder_list()[1] == seq![37u8, 83, 65, 70, 69, 95, 78, 65, 77, 69, 37],
        placeholder_list()[2] == seq![37u8, 80, 82, 79, 84, 79, 95, 80, 65, 67, 75, 65, 71, 69, 37],
        placeholder_list()[3] == seq![37u8, 80, 82, 79, 84, 79, 95, 77, 79, 68, 85, 76, 69, 37],
        placeholder_list()[4] == seq![37u8, 80, 82, 79, 84, 79, 95, 77, 79, 68, 85, 76, 69, 95, 82, 85, 83, 84, 37],
        placeholder_list()[5] == seq![37u8, 80, 82, 79, 84, 79, 95, 66, 65, 83, 69, 78, 65, 77, 69, 37],
        placeholder_list()[6] == seq![37u8, 80, 82, 79, 84, 79, 95, 73, 77, 80, 79, 82, 84, 37],
        placeholder_list()[7] == seq![37u8, 71, 79, 95, 80, 65, 67, 75, 65, 71, 69, 37],
{
    reveal_strlit("%MESSAGE_NAME%");
    reveal_strlit("%SAFE_NAME%");
    reveal_strlit("%PROTO_PACKAGE%");
    reveal_strlit("%PROTO_MODULE%");
    reveal_strlit("%PROTO_MODULE_RUST%");
    reveal_strlit("%PROTO_BASENAME%");
    reveal_strlit("%PROTO_IMPORT%");
    reveal_strlit("%GO_PACKAGE%");
    is_ascii_chars_encode_utf8("%MESSAGE_NAME%"@);
    assert(placeholder_list()[0] =~= seq![37u8, 77, 69, 83, 83, 65, 71, 69, 95, 78, 65, 77, 69, 37]);
    is_ascii_chars_encode_utf8("%SAFE_NAME%"@);
    assert(placeholder_list()[1] =~= seq![37u8, 83, 65, 70, 69, 95, 78, 65, 77, 69, 37]);
    is_ascii_chars_encode_utf8("%PROTO_PACKAGE%"@);
    assert(placeholder_list()[2] =~= seq![37u8, 80, 82, 79, 84, 79, 95, 80, 65, 67, 75, 65, 71, 69, 37]);
    is_ascii_chars_encode_utf8("%PROTO_MODULE%"@);
    assert(placeholder_list()[3] =~= seq![37u8, 80, 82, 79, 84, 79, 95, 77, 79, 68, 85, 76, 69, 37]);
    is_ascii_chars_encode_utf8("%PROTO_MODULE_RUST%"@);
    assert(placeholder_list()[4] =~= seq![37u8, 80, 82, 79, 84, 79, 95, 77, 79, 68, 85, 76, 69, 95, 82, 85, 83, 84, 37]);
    is_ascii_chars_encode_utf8("%PROTO_BASENAME%"@);
    assert(placeholder_list()[5] =~= seq![37u8, 80, 82, 79, 84, 79, 95, 66, 65, 83, 69, 78, 65, 77, 69, 37]);
    is_ascii_chars_encode_utf8("%PROTO_IMPORT%"@);
    assert(placeholder_list()[6] =~= seq![37u8, 80, 82, 79, 84, 79, 95, 73, 77, 80, 79, 82, 84, 37]);
    is_ascii_chars_encode_utf8("%GO_PACKAGE%"@);
    assert(placeholder_list()[7] =~= seq![37u8, 71, 79, 95, 80, 65, 67, 75, 65, 71, 69, 37]);
    let phs = placeholder_list();
    assert forall|j: int| 0 <= j < phs.len() implies is_placeholder(#[trigger] phs[j]) by {
        if j == 0 { assert(is_placeholder(phs[0])); }
        if j == 1 { assert(is_placeholder(phs[1])); }
        if j == 2 { assert(is_placeholder(phs[2])); }
        if j == 3 { assert(is_placeholder(phs[3])); }
        if j == 4 { assert(is_placeholder(phs[4])); }
        if j == 5 { assert(is_placeholder(phs[5])); }
        if j == 6 { assert(is_placeholder(phs[6])); }
        if j == 7 { assert(is_placeholder(phs[7])); }
    }
    assert forall|a: int, b: int| 0 <= a < b < phs.len() implies #[trigger] phs[a] != #[trigger] phs[b] by {
        if a == 0 && b == 3 { assert(phs[0][1] != phs[3][1]); }
        if a == 0 && b == 6 { assert(phs[0][1] != phs[6][1]); }
        if a == 3 && b == 6 { assert(phs[3][7] != phs[6][7]); }
    }
}

/// The python template as pieces.
pub open spec fn python_pieces() -> Seq<Piece> {
    let t = templates::PYTHON.spec_bytes();
    seq![
        Piece::Lit(t.subrange(0, 113)),
        Piece::Tok(2),
        Piece::Tok(0),
        Piece::Lit(t.subrange(142, 153)),
        Piece::Tok(3),
        Piece::Lit(t.subrange(167, 220)),
        Piece::Tok(1),
        Piece::Lit(t.subrange(231, 293)),
        Piece::Tok(0),
        Piece::Lit(t.subrange(307, 321)),
        Piece::Tok(3),
        Piece::Lit(t.subrange(335, 343)),
        Piece::Tok(0),
        Piece::Lit(t.subrange(357, 381)),
        Piece::Tok(0),
        Piece::Lit(t.subrange(395, 806)),
        Piece::Tok(1),
        Piece::Lit(t.subrange(817, 864)),
    ]
}

/// The python template is the text of its pieces, which are well formed.
#[verifier::spinoff_prover]
#[verifier::rlimit(60)]
pub proof fn lemma_python_pieces(vals: Seq<Seq<u8>>)
    ensures
        templates::PYTHON.spec_bytes() == pieces_text(python_pieces(), placeholder_list(), vals, 0),
        pieces_ok(python_pieces(), 8),
{
    lemma_placeholder_list();
    reveal_strlit(r#""""Auto-generated fuzz harness by protobuf-fuzz-guard."""

import sys
from pathlib import Path

# Generated for: %PROTO_PACKAGE%%MESSAGE_NAME%
# Replace %PROTO_MODULE% with your actual compiled protobuf module

def fuzz_%SAFE_NAME%(data: bytes) -> None:
    """Fuzz target: parse raw bytes as %MESSAGE_NAME%."""
    from %PROTO_MODULE% import %MESSAGE_NAME%
    try:
        msg = %MESSAGE_NAME%()
        msg.ParseFromString(data)
        # Access all fields to trigger lazy parsing
        msg.SerializeToString()
        str(msg)
    except Exception:
        pass  # Expected on malformed input


def main():
    """Read from stdin or file argument for manual testing."""
    if len(sys.argv) > 1:
        data = Path(sys.argv[1]).read_bytes()
    else:
        data = sys.stdin.buffer.read()
    fuzz_%SAFE_NAME%(data)


if __name__ == "__main__":
    main()
"#);
    assert(templates::PYTHON@ == r#""""Auto-generated fuzz harness by protobuf-fuzz-guard."""

import sys
from pathlib import Path

# Generated for: %PROTO_PACKAGE%%MESSAGE_NAME%
# Replace %PROTO_MODULE% with your actual compiled protobuf module

def fuzz_%SAFE_NAME%(data: bytes) -> None:
    """Fuzz target: parse raw bytes as %MESSAGE_NAME%."""
    from %PROTO_MODULE% import %MESSAGE_NAME%
    try:
        msg = %MESSAGE_NAME%()
        msg.ParseFromString(data)
        # Access all fields to trigger lazy parsing
        msg.SerializeToString()
        str(msg)
    except Exception:
        pass  # Expected on malformed input


def main():
    """Read from stdin or file argument for manual testing."""
    if len(sys.argv) > 1:
        data = Path(sys.argv[1]).read_bytes()
    else:
        data = sys.stdin.buffer.read()
    fuzz_%SAFE_NAME%(data)


if __name__ == "__main__":
    main()
"#@);
    assert(is_ascii_chars(templates::PYTHON@));
    is_ascii_chars_encode_utf8(templates::PYTHON@);
    let t = templates::PYTHON.spec_bytes();
    let phs = placeholder_list();
    let ps = python_pieces();
    assert(t.len() == 864);
    assert(forall|i: int| 0 <= i < 864 && #[trigger] t[i] == 37u8 ==> i == 113 || i == 127 || i == 128 || i == 141 || i == 153 || i == 166 || i == 220 || i == 230 || i == 293 || i == 306 || i == 321 || i == 334 || i == 343 || i == 356 || i == 381 || i == 394 || i == 806 || i == 816);
    assert(no_percent(t.subrange(0, 113))) by { assert(forall|i: int| 0 <= i < 113 ==> #[trigger] t.subrange(0, 113)[i] == t[0 + i]); }
    assert(t.subrange(113, 128) =~= phs[2]);
    assert(t.subrange(128, 142) =~= phs[0]);
    assert(no_percent(t.subrange(142, 153))) by { assert(forall|i: int| 0 <= i < 11 ==> #[trigger] t.subrange(142, 153)[i] == t[142 + i]); }
    assert(!name_byte(t.subrange(142, 153)[0]));
    assert(t.subrange(153, 167) =~= phs[3]);
    assert(no_percent(t.subrange(167, 220))) by { assert(forall|i: int| 0 <= i < 53 ==> #[trigger] t.subrange(167, 220)[i] == t[167 + i]); }
    assert(!name_byte(t.subrange(167, 220)[0]));
    assert(t.subrange(220, 231) =~= phs[1]);
    assert(no_percent(t.subrange(231, 293))) by { assert(forall|i: int| 0 <= i < 62 ==> #[trigger] t.subrange(231, 293)[i] == t[231 + i]); }
    assert(!name_byte(t.subrange(231, 293)[0]));
    assert(t.subrange(293, 307) =~= phs[0]);
    assert(no_percent(t.subrange(307, 321))) by { assert(forall|i: int| 0 <= i < 14 ==> #[trigger] t.subrange(307, 321)[i] == t[307 + i]); }
    assert(!name_byte(t.subrange(307, 321)[0]));
    assert(t.subrange(321, 335) =~= phs[3]);
    assert(no_percent(t.subrange(335, 343))) by { assert(forall|i: int| 0 <= i < 8 ==> #[trigger] t.subrange(335, 343)[i] == t[335 + i]); }
    assert(!name_byte(t.subrange(335, 343)[0]));
    assert(t.subrange(343, 357) =~= phs[0]);
    assert(no_percent(t.subrange(357, 381))) by { assert(forall|i: int| 0 <= i < 24 ==> #[trigger] t.subrange(357, 381)[i] == t[357 + i]); }
    assert(!name_byte(t.subrange(357, 381)[0]));
    assert(t.subrange(381, 395) =~= phs[0]);
    assert(no_percent(t.subrange(395, 806))) by { assert(forall|i: int| 0 <= i < 411 ==> #[trigger] t.subrange(395, 806)[i] == t[395 + i]); }
    assert(!name_byte(t.subrange(395, 806)[0]));
    assert(t.subrange(806, 817) =~= phs[1]);
    assert(no_percent(t.subrange(817, 864))) by { assert(forall|i: int| 0 <= i < 47 ==> #[trigger] t.subrange(817, 864)[i] == t[817 + i]); }
    assert(!name_byte(t.subrange(817, 864)[0]));
    assert forall|p: int| 0 <= p < ps.len() implies match #[trigger] ps[p] {
        Piece::Lit(b) => no_percent(b),
        Piece::Tok(j) => 0 <= j < 8 && super::filled::follows_ok(ps, p, j),
    } by {
    }
    reveal_with_fuel(pieces_text, 19);
    assert(t =~= pieces_text(ps, phs, vals, 0));
}

/// The cpp template as pieces.
pub open spec fn cpp_pieces() -> Seq<Piece> {
    let t = templates::CPP.spec_bytes();
    seq![
        Piece::Lit(t.subrange(0, 104)),
        Piece::Tok(1),
        Piece::Lit(t.subrange(115, 173)),
        Piece::Tok(5),
        Piece::Lit(t.subrange(189, 275)),
        Piece::Tok(2),
        Piece::Tok(0),
        Piece::Lit(t.subrange(304, 577)),
    ]
}

/// The cpp template is the text of its pieces, which are well formed.
#[verifier::spinoff_prover]
#[verifier::rlimit(60)]
pub proof fn lemma_cpp_pieces(vals: Seq<Seq<u8>>)
    ensures
        templates::CPP.spec_bytes() == pieces_text(cpp_pieces(), placeholder_list(), vals, 0),
        pieces_ok(cpp_pieces(), 8),
{
    lemma_placeholder_list();
    reveal_strlit(r#"// Auto-generated fuzz harness by protobuf-fuzz-guard.
// Compile: clang++ -fsanitize=fuzzer -lprotobuf %SAFE_NAME%_fuzz.cc

#include <cstdint>
#include <cstring>
#include "%PROTO_BASENAME%.pb.h"

extern "C" int LLVMFuzzerTestOneInput(const uint8_t* data, size_t size) {
    %PROTO_PACKAGE%%MESSAGE_NAME% msg;
    // Set recursion limit to catch stack overflows
    msg.set_recursion_depth_limit(64);
    msg.ParseFromArray(data, static_cast<int>(size));
    // Force full parsing by serializing back
    std::string output;
    msg.SerializeToString(&output);
    return 0;
}
"#);
    assert(templates::CPP@ == r#"// Auto-generated fuzz harness by protobuf-fuzz-guard.
// Compile: clang++ -fsanitize=fuzzer -lprotobuf %SAFE_NAME%_fuzz.cc

#include <cstdint>
#include <cstring>
#include "%PROTO_BASENAME%.pb.h"

extern "C" int LLVMFuzzerTestOneInput(const uint8_t* data, size_t size) {
    %PROTO_PACKAGE%%MESSAGE_NAME% msg;
    // Set recursion limit to catch stack overflows
    msg.set_recursion_depth_limit(64);
    msg.ParseFromArray(data, static_cast<int>(size));
    // Force full parsing by serializing back
    std::string output;
    msg.SerializeToString(&output);
    return 0;
}
"#@);
    assert(is_ascii_chars(templates::CPP@));
    is_ascii_chars_encode_utf8(templates::CPP@);
    let t = templates::CPP.spec_bytes();
    let phs = placeholder_list();
    let ps = cpp_pieces();
    assert(t.len() == 577);
    assert(forall|i: int| 0 <= i < 577 && #[trigger] t[i] == 37u8 ==> i == 104 || i == 114 || i == 173 || i == 188 || i == 275 || i == 289 || i == 290 || i == 303);
    assert(no_percent(t.subrange(0, 104))) by { assert(forall|i: int| 0 <= i < 104 ==> #[trigger] t.subrange(0, 104)[i] == t[0 + i]); }
    assert(t.subrange(104, 115) =~= phs[1]);
    assert(no_percent(t.subrange(115, 173))) by { assert(forall|i: int| 0 <= i < 58 ==> #[trigger] t.subrange(115, 173)[i] == t[115 + i]); }
    assert(!name_byte(t.subrange(115, 173)[1]));
    assert(t.subrange(173, 189) =~= phs[5]);
    assert(no_percent(t.subrange(189, 275))) by { assert(forall|i: int| 0 <= i < 86 ==> #[trigger] t.subrange(189, 275)[i] == t[189 + i]); }
    assert(!name_byte(t.subrange(189, 275)[0]));
    assert(t.subrange(275, 290) =~= phs[2]);
    assert(t.subrange(290, 304) =~= phs[0]);
    assert(no_percent(t.subrange(304, 577))) by { assert(forall|i: int| 0 <= i < 273 ==> #[trigger] t.subrange(304, 577)[i] == t[304 + i]); }
    assert(!name_byte(t.subrange(304, 577)[0]));
    assert forall|p: int| 0 <= p < ps.len() implies match #[trigger] ps[p] {
        Piece::Lit(b) => no_percent(b),
        Piece::Tok(j) => 0 <= j < 8 && super::filled::follows_ok(ps, p, j),
    } by {
    }
    reveal_with_fuel(pieces_text, 9);
    assert(t =~= pieces_text(ps, phs, vals, 0));
}

/// The go template as pieces.
pub open spec fn go_pieces() -> Seq<Piece> {
    let t = templates::GO.spec_bytes();
    seq![
        Piece::Lit(t.subrange(0, 95)),
        Piece::Tok(7),
        Piece::Lit(t.subrange(107, 136)),
        Piece::Tok(6),
        Piece::Lit(t.subrange(150, 163)),
        Piece::Tok(1),
        Piece::Lit(t.subrange(174, 362)),
        Piece::Tok(2),
        Piece::Tok(0),
        Piece::Lit(t.subrange(391, 548)),
    ]
}

/// The go template is the text of its pieces, which are well formed.
#[verifier::spinoff_prover]
#[verifier::rlimit(60)]
pub proof fn lemma_go_pieces(vals: Seq<Seq<u8>>)
    ensures
        templates::GO.spec_bytes() == pieces_text(go_pieces(), placeholder_list(), vals, 0),
        pieces_ok(go_pieces(), 8),
{
    lemma_placeholder_list();
    reveal_strlit(r#"// Auto-generated fuzz harness by protobuf-fuzz-guard.
// Go 1.18+ native fuzz target

package %GO_PACKAGE%

import (
    "testing"
    %PROTO_IMPORT%
)

func Fuzz%SAFE_NAME%(f *testing.F) {
    f.Add([]byte{})  // Seed corpus: empty message
    f.Add([]byte{0x0a, 0x00})  // Seed: field 1, length 0

    f.Fuzz(func(t *testing.T, data []byte) {
        msg := &%PROTO_PACKAGE%%MESSAGE_NAME%{}
        if err := proto.Unmarshal(data, msg); err != nil {
            return
        }
        // Force full parsing
        proto.Marshal(msg)
    })
}
"#);
    assert(templates::GO@ == r#"// Auto-generated fuzz harness by protobuf-fuzz-guard.
// Go 1.18+ native fuzz target

package %GO_PACKAGE%

import (
    "testing"
    %PROTO_IMPORT%
)

func Fuzz%SAFE_NAME%(f *testing.F) {
    f.Add([]byte{})  // Seed corpus: empty message
    f.Add([]byte{0x0a, 0x00})  // Seed: field 1, length 0

    f.Fuzz(func(t *testing.T, data []byte) {
        msg := &%PROTO_PACKAGE%%MESSAGE_NAME%{}
        if err := proto.Unmarshal(data, msg); err != nil {
            return
        }
        // Force full parsing
        proto.Marshal(msg)
    })
}
"#@);
    assert(is_ascii_chars(templates::GO@));
    is_ascii_chars_encode_utf8(templates::GO@);
    let t = templates::GO.spec_bytes();
    let phs = placeholder_list();
    let ps = go_pieces();
    assert(t.len() == 548);
    assert(forall|i: int| 0 <= i < 548 && #[trigger] t[i] == 37u8 ==> i == 95 || i == 106 || i == 136 || i == 149 || i == 163 || i == 173 || i == 362 || i == 376 || i == 377 || i == 390);
    assert(no_percent(t.subrange(0, 95))) by { assert(forall|i: int| 0 <= i < 95 ==> #[trigger] t.subrange(0, 95)[i] == t[0 + i]); }
    assert(t.subrange(95, 107) =~= phs[7]);
    assert(no_percent(t.subrange(107, 136))) by { assert(forall|i: int| 0 <= i < 29 ==> #[trigger] t.subrange(107, 136)[i] == t[107 + i]); }
    assert(!name_byte(t.subrange(107, 136)[0]));
    assert(t.subrange(136, 150) =~= phs[6]);
    assert(no_percent(t.subrange(150, 163))) by { assert(forall|i: int| 0 <= i < 13 ==> #[trigger] t.subrange(150, 163)[i] == t[150 + i]); }
    assert(!name_byte(t.subrange(150, 163)[0]));
    assert(t.subrange(163, 174) =~= phs[1]);
    assert(no_percent(t.subrange(174, 362))) by { assert(forall|i: int| 0 <= i < 188 ==> #[trigger] t.subrange(174, 362)[i] == t[174 + i]); }
    assert(!name_byte(t.subrange(174, 362)[0]));
    assert(t.subrange(362, 377) =~= phs[2]);
    assert(t.subrange(377, 391) =~= phs[0]);
    assert(no_percent(t.subrange(391, 548))) by { assert(forall|i: int| 0 <= i < 157 ==> #[trigger] t.subrange(391, 548)[i] == t[391 + i]); }
    assert(!name_byte(t.subrange(391, 548)[0]));
    assert forall|p: int| 0 <= p < ps.len() implies match #[trigger] ps[p] {
        Piece::Lit(b) => no_percent(b),
        Piece::Tok(j) => 0 <= j < 8 && super::filled::follows_ok(ps, p, j),
    } by {
    }
    reveal_with_fuel(pieces_text, 11);
    assert(t =~= pieces_text(ps, phs, vals, 0));
}

/// The rust template as pieces.
pub open spec fn rust_pieces() -> Seq<Piece> {
    let t = templates::RUST.spec_bytes();
    seq![
        Piece::Lit(t.subrange(0, 96)),
        Piece::Tok(0),
        Piece::Lit(t.subrange(110, 195)),
        Piece::Tok(1),
        Piece::Lit(t.subrange(206, 453)),
        Piece::Tok(4),
        Piece::Lit(t.subrange(472, 527)),
        Piece::Tok(2),
        Piece::Tok(0),
        Piece::Lit(t.subrange(556, 562)),
        Piece::Tok(4),
        Piece::Lit(t.subrange(581, 583)),
        Piece::Tok(0),
        Piece::Lit(t.subrange(597, 736)),
        Piece::Tok(0),
        Piece::Lit(t.subrange(750, 1035)),
        Piece::Tok(0),
        Piece::Lit(t.subrange(1049, 1085)),
    ]
}

/// The rust template is the text of its pieces, which are well formed.
#[verifier::spinoff_prover]
#[verifier::rlimit(60)]
pub proof fn lemma_rust_pieces(vals: Seq<Seq<u8>>)
    ensures
        templates::RUST.spec_bytes() == pieces_text(rust_pieces(), placeholder_list(), vals, 0),
        pieces_ok(rust_pieces(), 8),
{
    lemma_placeholder_list();
    reveal_strlit(r#"// Auto-generated fuzz harness by protobuf-fuzz-guard.
// Structure-aware libFuzzer target for `%MESSAGE_NAME%` using prost.
//
// Run with a nightly toolchain:
//   cargo +nightly fuzz run fuzz_%SAFE_NAME%
//
// prost enforces a recursion/nesting limit of 100 by default (DecodeContext),
// guarding against stack-overflow DoS. See RUSTSEC-2020-0002 and pin prost >= 0.6.1.
#![no_main]

use libfuzzer_sys::fuzz_target;
use prost::Message;

// Replace `%PROTO_MODULE_RUST%` with the module of your generated prost types
// for %PROTO_PACKAGE%%MESSAGE_NAME%.
use %PROTO_MODULE_RUST%::%MESSAGE_NAME%;

fuzz_target!(|data: &[u8]| {
    // Decode untrusted bytes. Errors (including RecursionLimitReached) are expected.
    if let Ok(msg) = %MESSAGE_NAME%::decode(data) {
        // Round-trip: re-encode, then decode again to exercise both directions.
        let mut buf = Vec::with_capacity(msg.encoded_len());
        msg.encode(&mut buf)
            .expect("re-encoding a successfully decoded message is infallible");
        let _ = %MESSAGE_NAME%::decode(buf.as_slice());
    }
});
"#);
    assert(templates::RUST@ == r#"// Auto-generated fuzz harness by protobuf-fuzz-guard.
// Structure-aware libFuzzer target for `%MESSAGE_NAME%` using prost.
//
// Run with a nightly toolchain:
//   cargo +nightly fuzz run fuzz_%SAFE_NAME%
//
// prost enforces a recursion/nesting limit of 100 by default (DecodeContext),
// guarding against stack-overflow DoS. See RUSTSEC-2020-0002 and pin prost >= 0.6.1.
#![no_main]

use libfuzzer_sys::fuzz_target;
use prost::Message;

// Replace `%PROTO_MODULE_RUST%` with the module of your generated prost types
// for %PROTO_PACKAGE%%MESSAGE_NAME%.
use %PROTO_MODULE_RUST%::%MESSAGE_NAME%;

fuzz_target!(|data: &[u8]| {
    // Decode untrusted bytes. Errors (including RecursionLimitReached) are expected.
    if let Ok(msg) = %MESSAGE_NAME%::decode(data) {
        // Round-trip: re-encode, then decode again to exercise both directions.
        let mut buf = Vec::with_capacity(msg.encoded_len());
        msg.encode(&mut buf)
            .expect("re-encoding a successfully decoded message is infallible");
        let _ = %MESSAGE_NAME%::decode(buf.as_slice());
    }
});
"#@);
    assert(is_ascii_chars(templates::RUST@));
    is_ascii_chars_encode_utf8(templates::RUST@);
    let t = templates::RUST.spec_bytes();
    let phs = placeholder_list();
    let ps = rust_pieces();
    assert(t.len() == 1085);
    assert(forall|i: int| 0 <= i < 1085 && #[trigger] t[i] == 37u8 ==> i == 96 || i == 109 || i == 195 || i == 205 || i == 453 || i == 471 || i == 527 || i == 541 || i == 542 || i == 555 || i == 562 || i == 580 || i == 583 || i == 596 || i == 736 || i == 749 || i == 1035 || i == 1048);
    assert(no_percent(t.subrange(0, 96))) by { assert(forall|i: int| 0 <= i < 96 ==> #[trigger] t.subrange(0, 96)[i] == t[0 + i]); }
    assert(t.subrange(96, 110) =~= phs[0]);
    assert(no_percent(t.subrange(110, 195))) by { assert(forall|i: int| 0 <= i < 85 ==> #[trigger] t.subrange(110, 195)[i] == t[110 + i]); }
    assert(!name_byte(t.subrange(110, 195)[0]));
    assert(t.subrange(195, 206) =~= phs[1]);
    assert(no_percent(t.subrange(206, 453))) by { assert(forall|i: int| 0 <= i < 247 ==> #[trigger] t.subrange(206, 453)[i] == t[206 + i]); }
    assert(!name_byte(t.subrange(206, 453)[0]));
    assert(t.subrange(453, 472) =~= phs[4]);
    assert(no_percent(t.subrange(472, 527))) by { assert(forall|i: int| 0 <= i < 55 ==> #[trigger] t.subrange(472, 527)[i] == t[472 + i]); }
    assert(!name_byte(t.subrange(472, 527)[0]));
    assert(t.subrange(527, 542) =~= phs[2]);
    assert(t.subrange(542, 556) =~= phs[0]);
    assert(no_percent(t.subrange(556, 562))) by { assert(forall|i: int| 0 <= i < 6 ==> #[trigger] t.subrange(556, 562)[i] == t[556 + i]); }
    assert(!name_byte(t.subrange(556, 562)[0]));
    assert(t.subrange(562, 581) =~= phs[4]);
    assert(no_percent(t.subrange(581, 583))) by { assert(forall|i: int| 0 <= i < 2 ==> #[trigger] t.subrange(581, 583)[i] == t[581 + i]); }
    assert(!name_byte(t.subrange(581, 583)[0]));
    assert(t.subrange(583, 597) =~= phs[0]);
    assert(no_percent(t.subrange(597, 736))) by { assert(forall|i: int| 0 <= i < 139 ==> #[trigger] t.subrange(597, 736)[i] == t[597 + i]); }
    assert(!name_byte(t.subrange(597, 736)[0]));
    assert(t.subrange(736, 750) =~= phs[0]);
    assert(no_percent(t.subrange(750, 1035))) by { assert(forall|i: int| 0 <= i < 285 ==> #[trigger] t.subrange(750, 1035)[i] == t[750 + i]); }
    assert(!name_byte(t.subrange(750, 1035)[0]));
    assert(t.subrange(1035, 1049) =~= phs[0]);
    assert(no_percent(t.subrange(1049, 1085))) by { assert(forall|i: int| 0 <= i < 36 ==> #[trigger] t.subrange(1049, 1085)[i] == t[1049 + i]); }
    assert(!name_byte(t.subrange(1049, 1085)[0]));
    assert forall|p: int| 0 <= p < ps.len() implies match #[trigger] ps[p] {
        Piece::Lit(b) => no_percent(b),
        Piece::Tok(j) => 0 <= j < 8 && super::filled::follows_ok(ps, p, j),
    } by {
    }
    reveal_with_fuel(pieces_text, 19);
    assert(t =~= pieces_text(ps, phs, vals, 0));
}

/// The values that replace the placeholders, in [`placeholder_list`] order.
pub open spec fn render_values(f: FileView, m: MessageView, safe: Seq<u8>) -> Seq<Seq<u8>> {
    seq![
        m.name,
        safe,
        package_prefix_of(f.package),
        python_module_of(f),
        rust_module_of(f),
        file_stem_of(f.file_path),
        go_import(),
        go_package_of(f.package),
    ]
}

/// Rendering replaces the placeholders one after the other.
proof fn lemma_render_pieces(t: Seq<u8>, ps: Seq<Piece>, f: FileView, m: MessageView, safe: Seq<u8>)
    requires
        t == pieces_text(ps, placeholder_list(), render_values(f, m, safe), 0),
        pieces_ok(ps, 8),
        values_ok(render_values(f, m, safe), 8),
    ensures
        render_with(t, f, m, safe) == pieces_text(ps, placeholder_list(), render_values(f, m, safe), 8),
{
    lemma_placeholder_list();
    let phs = placeholder_list();
    let vals = render_values(f, m, safe);
    lemma_replace_stage(ps, phs, vals, 0);
    lemma_replace_stage(ps, phs, vals, 1);
    lemma_replace_stage(ps, phs, vals, 2);
    lemma_replace_stage(ps, phs, vals, 3);
    lemma_replace_stage(ps, phs, vals, 4);
    lemma_replace_stage(ps, phs, vals, 5);
    lemma_replace_stage(ps, phs, vals, 6);
    lemma_replace_stage(ps, phs, vals, 7);
}

/// Replacing with text that holds no `%` in text that holds none leaves none.
proof fn lemma_replace_no_percent(s: Seq<u8>, pat: Seq<u8>, rep: Seq<u8>)
    requires
        no_percent(s),
        no_percent(rep),
    ensures
        no_percent(replace_all(s, pat, rep)),
    decreases s.len(),
{
    if pat.len() == 0 || s.len() < pat.len() {
    } else if s.take(pat.len() as int) == pat {
        let rest = s.skip(pat.len() as int);
        assert forall|i: int| 0 <= i < rest.len() implies #[trigger] rest[i] != 37u8 by {
            assert(rest[i] == s[i + pat.len()]);
        }
        lemma_replace_no_percent(rest, pat, rep);
        let r = replace_all(rest, pat, rep);
        assert forall|i: int| 0 <= i < (rep + r).len() implies #[trigger] (rep + r)[i] != 37u8 by {
            if i < rep.len() {
                assert((rep + r)[i] == rep[i]);
            } else {
                assert((rep + r)[i] == r[i - rep.len()]);
            }
        }
    } else {
        let rest = s.drop_first();
        assert forall|i: int| 0 <= i < rest.len() implies #[trigger] rest[i] != 37u8 by {
            assert(rest[i] == s[i + 1]);
        }
        lemma_replace_no_percent(rest, pat, rep);
        let r = replace_all(rest, pat, rep);
        assert forall|i: int| 0 <= i < (seq![s[0]] + r).len() implies #[trigger] (seq![s[0]] + r)[i] != 37u8 by {
            if i > 0 {
                assert((seq![s[0]] + r)[i] == r[i - 1]);
            }
        }
    }
}

/// Two texts without `%` joined hold none.
proof fn lemma_join_no_percent(a: Seq<u8>, b: Seq<u8>)
    requires
        no_percent(a),
        no_percent(b),
    ensures
        no_percent(a + b),
{
    assert forall|i: int| 0 <= i < (a + b).len() implies #[trigger] (a + b)[i] != 37u8 by {
        if i < a.len() {
            assert((a + b)[i] == a[i]);
        } else {
            assert((a + b)[i] == b[i - a.len()]);
        }
    }
}

/// The values drawn from a file and message without `%` hold no `%`.
proof fn lemma_values_ok(f: FileView, m: MessageView, safe: Seq<u8>)
    requires
        no_percent(m.name),
        no_percent(f.package),
        no_percent(f.file_path),
        no_percent(safe),
    ensures
        values_ok(render_values(f, m, safe), 8),
{
    reveal_strlit(".");
    reveal_strlit("_");
    reveal_strlit("_pb2");
    reveal_strlit("fuzz");
    reveal_strlit("proto");
    reveal_strlit("\"google.golang.org/protobuf/proto\"");
    is_ascii_chars_encode_utf8("."@);
    is_ascii_chars_encode_utf8("_"@);
    is_ascii_chars_encode_utf8("_pb2"@);
    is_ascii_chars_encode_utf8("fuzz"@);
    is_ascii_chars_encode_utf8("proto"@);
    is_ascii_chars_encode_utf8("\"google.golang.org/protobuf/proto\""@);
    assert(no_percent(".".spec_bytes()));
    assert(no_percent("_pb2".spec_bytes()));
    assert(no_percent("fuzz".spec_bytes()));
    assert(no_percent(default_stem()));
    assert(no_percent(go_import()));
    assert(no_percent("_".spec_bytes()));
    lemma_replace_no_percent(f.package, ".".spec_bytes(), "_".spec_bytes());
    let pkg = f.package;
    let path = f.file_path;
    if pkg.len() > 0 {
        lemma_join_no_percent(pkg, ".".spec_bytes());
    }
    assert(no_percent(package_prefix_of(pkg)));
    assert(no_percent(go_package_of(pkg)));
    assert(no_percent(file_stem_of(path))) by {
        if path.len() > 0 {
            lemma_path_trim_end(path, path.len() as int);
            let e = path_trim_end(path, path.len() as int);
            lemma_last_before(path, e, crate::text::SLASH);
            lemma_last_before(path, e, crate::text::DOT);
            if let Some(x) = path_stem(path) {
                assert forall|i: int| 0 <= i < x.len() implies #[trigger] x[i] != 37u8 by {
                    let st = match last_before(path, e, crate::text::SLASH) {
                        Some(k) => k + 1,
                        None => 0,
                    };
                    match last_before(path, e, crate::text::DOT) {
                        Some(k) => if k > st {
                            assert(x[i] == path[st + i]);
                        } else {
                            assert(x[i] == path[st + i]);
                        },
                        None => {
                            assert(x[i] == path[st + i]);
                        },
                    }
                }
            }
        }
    }
    lemma_join_no_percent(file_stem_of(path), "_pb2".spec_bytes());
    lemma_join_no_percent(super::underscored(pkg), "_pb2".spec_bytes());
    assert(no_percent(python_module_of(f)));
    assert(no_percent(rust_module_of(f)));
    let vals = render_values(f, m, safe);
    assert forall|j: int| 0 <= j < 8 implies no_percent(#[trigger] vals[j]) by {}
}

/// What rendering a template read as `ps` gives, when placeholder 2
/// (`%PROTO_PACKAGE%`) stands right before placeholder 0 (`%MESSAGE_NAME%`)
/// at `p`.
#[verifier::spinoff_prover]
proof fn lemma_filled(t: Seq<u8>, ps: Seq<Piece>, p: int, f: FileView, m: MessageView, safe: Seq<u8>)
    requires
        t == pieces_text(ps, placeholder_list(), render_values(f, m, safe), 0),
        pieces_ok(ps, 8),
        0 <= p,
        p + 1 < ps.len(),
        ps[p] == Piece::Tok(2),
        ps[p + 1] == Piece::Tok(0),
        no_percent(m.name),
        no_percent(f.package),
        no_percent(f.file_path),
        no_percent(safe),
    ensures
        no_percent(render_with(t, f, m, safe)),
        contains(render_with(t, f, m, safe), m.name),
        f.package.len() > 0 ==> contains(render_with(t, f, m, safe), f.package + ".".spec_bytes() + m.name),
{
    let vals = render_values(f, m, safe);
    let phs = placeholder_list();
    lemma_placeholder_list();
    lemma_values_ok(f, m, safe);
    lemma_render_pieces(t, ps, f, m, safe);
    let out = pieces_text(ps, phs, vals, 8);
    lemma_text_no_percent(ps, phs, vals, 8);
    lemma_text_contains_pair(ps, phs, vals, 8, p, 2, 0);
    let w = vals[2] + vals[0];
    let i = choose|i: int| 0 <= i && i + w.len() <= out.len() && #[trigger] out.subrange(i, i + w.len()) == w;
    let j = i + vals[2].len();
    assert(vals[0] == m.name);
    assert forall|k: int| 0 <= k < m.name.len() implies #[trigger] out.subrange(j, j + m.name.len())[k]
        == m.name[k] by {
        assert(out.subrange(j, j + m.name.len())[k] == out[j + k]);
        assert(out.subrange(i, i + w.len())[vals[2].len() + k] == out[j + k]);
        assert(w[vals[2].len() + k] == vals[0][k]);
    }
    assert(out.subrange(j, j + m.name.len()) =~= m.name);
    if f.package.len() > 0 {
        assert(w =~= f.package + ".".spec_bytes() + m.name);
    }
}

/// A rendered harness holds no placeholder: for a language with a template,
/// a message name, package and file path without `%`, and an identifier
/// name `safe` without `%`, the rendering holds no `%`, holds the message
/// name, and holds `<package>.<name>` when the package is set.
pub proof fn law_rendering_fills_placeholders(f: FileView, m: MessageView, lang: Seq<u8>, safe: Seq<u8>)
    requires
        template_of(lang) is Some,
        no_percent(m.name),
        no_percent(f.package),
        no_percent(f.file_path),
        no_percent(safe),
    ensures
        no_percent(render_with(template_of(lang)->0, f, m, safe)),
        contains(render_with(template_of(lang)->0, f, m, safe), m.name),
        f.package.len() > 0 ==> contains(
            render_with(template_of(lang)->0, f, m, safe),
            f.package + ".".spec_bytes() + m.name,
        ),
{
    let vals = render_values(f, m, safe);
    let t = template_of(lang)->0;
    if lang == "python".spec_bytes() {
        lemma_python_pieces(vals);
        lemma_filled(t, python_pieces(), 1, f, m, safe);
    } else if lang == "cpp".spec_bytes() {
        lemma_cpp_pieces(vals);
        lemma_filled(t, cpp_pieces(), 5, f, m, safe);
    } else if lang == "go".spec_bytes() {
        lemma_go_pieces(vals);
        lemma_filled(t, go_pieces(), 7, f, m, safe);
    } else {
        lemma_rust_pieces(vals);
        lemma_filled(t, rust_pieces(), 7, f, m, safe);
    }
}

/// The harness of a message, for a language with a template and a message
/// name, package and path without `%`, is [`law_rendering_fills_placeholders`]'s
/// rendering: when the message's lowercased identifier name holds no `%`,
/// the harness holds no `%`, holds the message name, and holds
/// `<package>.<name>` when the package is set.
pub proof fn law_harness_fills_placeholders(f: FileView, m: MessageView, lang: Seq<u8>)
    requires
        template_of(lang) is Some,
        no_percent(m.name),
        no_percent(f.package),
        no_percent(f.file_path),
    ensures
        harness_text(f, m, lang) is Some,
        harness_text(f, m, lang)->0 == render_with(template_of(lang)->0, f, m, safe_name_of(m.name)),
        no_percent(safe_name_of(m.name)) ==> {
            &&& no_percent(harness_text(f, m, lang)->0)
            &&& contains(harness_text(f, m, lang)->0, m.name)
            &&& f.package.len() > 0 ==> contains(harness_text(f, m, lang)->0, f.package + ".".spec_bytes() + m.name)
        },
{
    let safe = safe_name_of(m.name);
    if no_percent(safe) {
        law_rendering_fills_placeholders(f, m, lang, safe);
    }
}

} // verus!
