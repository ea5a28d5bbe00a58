//! Harness-generation tests, plus exact expected output for every language.

use pfg_core::{generate_all, generate_harness, parse_proto};

#[test]
fn python_harness_contents() {
    let content = r#"
    syntax = "proto3";
    package test;
    message Person {
        string name = 1;
        int32 age = 2;
    }
    "#;
    let proto = parse_proto(content, "person.proto");
    let code = generate_harness(&proto, &proto.messages[0], "python").unwrap();
    assert!(code.contains("def fuzz_person"));
    assert!(code.contains("ParseFromString"));
    assert!(code.contains("test.Person") || code.contains("Person"));
}

#[test]
fn cpp_harness_contents() {
    let content = r"
    message Data {
        bytes payload = 1;
    }
    ";
    let proto = parse_proto(content, "data.proto");
    let code = generate_harness(&proto, &proto.messages[0], "cpp").unwrap();
    assert!(code.contains("LLVMFuzzerTestOneInput"));
    assert!(code.contains("ParseFromArray"));
}

#[test]
fn go_harness_contents() {
    let content = r"
    message Event {
        string name = 1;
    }
    ";
    let proto = parse_proto(content, "event.proto");
    let code = generate_harness(&proto, &proto.messages[0], "go").unwrap();
    assert!(code.contains("Fuzzevent"));
    assert!(code.contains("proto.Unmarshal"));
}

#[test]
fn rust_harness_contents() {
    let content = r#"
    syntax = "proto3";
    package demo;
    message Payload {
        bytes data = 1;
    }
    "#;
    let proto = parse_proto(content, "payload.proto");
    let code = generate_harness(&proto, &proto.messages[0], "rust").unwrap();
    assert!(code.contains("fuzz_target!"));
    assert!(code.contains("use prost::Message;"));
    assert!(code.contains("Payload::decode"));
    assert!(code.contains("RUSTSEC-2020-0002"));
}

#[test]
fn generate_all_default_languages() {
    let content = r"
    message Msg {
        string val = 1;
    }
    ";
    let proto = parse_proto(content, "msg.proto");
    let result = generate_all(&proto, None).unwrap();
    let langs: Vec<_> = result.iter().map(|(l, _)| *l).collect();
    assert!(langs.contains(&"python"));
    assert!(langs.contains(&"cpp"));
    assert!(langs.contains(&"go"));
    assert!(langs.contains(&"rust"));
    let python = result.iter().find(|(l, _)| *l == "python").unwrap();
    assert_eq!(python.1.len(), 1);
}

#[test]
fn generate_specific_language() {
    let content = "message Msg { string val = 1; }";
    let proto = parse_proto(content, "msg.proto");
    let result = generate_all(&proto, Some(&["python"])).unwrap();
    assert_eq!(result.len(), 1);
    assert_eq!(result[0].0, "python");
}

#[test]
fn unsupported_language_errors() {
    let content = "message M { string v = 1; }";
    let proto = parse_proto(content, "");
    let err = generate_harness(&proto, &proto.messages[0], "java").unwrap_err();
    assert!(err.message().contains("java"));
}

// ---- exact output --------------------------------------------------------------

fn sample() -> pfg_core::ProtoFile {
    let content = r#"
    syntax = "proto3";
    package acme.v1;
    message Person {
        string name = 1;
        int32 age = 2;
    }
    "#;
    parse_proto(content, "person.proto")
}

#[test]
fn snapshot_python() {
    let proto = sample();
    let code = generate_harness(&proto, &proto.messages[0], "python").unwrap();
    let expected = r###""""Auto-generated fuzz harness by protobuf-fuzz-guard."""

import sys
from pathlib import Path

# Generated for: acme.v1.Person
# Replace acme_v1_pb2 with your actual compiled protobuf module

def fuzz_person(data: bytes) -> None:
    """Fuzz target: parse raw bytes as Person."""
    from acme_v1_pb2 import Person
    try:
        msg = Person()
        msg.ParseFromString(data)
        # Access all fields to trigger lazy parsing
        msg.SerializeToString()
        str(msg)
    except Exception:
        pass  # Expected on malformed input


def main():
    """Read from stdin or file argument for manual testing."""
    if len(sys.argv) > 1:
        data = Path(sys.argv[1]).read_bytes()
    else:
        data = sys.stdin.buffer.read()
    fuzz_person(data)


if __name__ == "__main__":
    main()
"###;
    assert_eq!(code, expected);
}

#[test]
fn snapshot_cpp() {
    let proto = sample();
    let code = generate_harness(&proto, &proto.messages[0], "cpp").unwrap();
    let expected = r###"// Auto-generated fuzz harness by protobuf-fuzz-guard.
// Compile: clang++ -fsanitize=fuzzer -lprotobuf person_fuzz.cc

#include <cstdint>
#include <cstring>
#include "person.pb.h"

extern "C" int LLVMFuzzerTestOneInput(const uint8_t* data, size_t size) {
    acme.v1.Person msg;
    // Set recursion limit to catch stack overflows
    msg.set_recursion_depth_limit(64);
    msg.ParseFromArray(data, static_cast<int>(size));
    // Force full parsing by serializing back
    std::string output;
    msg.SerializeToString(&output);
    return 0;
}
"###;
    assert_eq!(code, expected);
}

#[test]
fn snapshot_go() {
    let proto = sample();
    let code = generate_harness(&proto, &proto.messages[0], "go").unwrap();
    let expected = r###"// Auto-generated fuzz harness by protobuf-fuzz-guard.
// Go 1.18+ native fuzz target

package acme_v1

import (
    "testing"
    "google.golang.org/protobuf/proto"
)

func Fuzzperson(f *testing.F) {
    f.Add([]byte{})  // Seed corpus: empty message
    f.Add([]byte{0x0a, 0x00})  // Seed: field 1, length 0

    f.Fuzz(func(t *testing.T, data []byte) {
        msg := &acme.v1.Person{}
        if err := proto.Unmarshal(data, msg); err != nil {
            return
        }
        // Force full parsing
        proto.Marshal(msg)
    })
}
"###;
    assert_eq!(code, expected);
}

#[test]
fn snapshot_rust() {
    let proto = sample();
    let code = generate_harness(&proto, &proto.messages[0], "rust").unwrap();
    let expected = r###"// Auto-generated fuzz harness by protobuf-fuzz-guard.
// Structure-aware libFuzzer target for `Person` using prost.
//
// Run with a nightly toolchain:
//   cargo +nightly fuzz run fuzz_person
//
// prost enforces a recursion/nesting limit of 100 by default (DecodeContext),
// guarding against stack-overflow DoS. See RUSTSEC-2020-0002 and pin prost >= 0.6.1.
#![no_main]

use libfuzzer_sys::fuzz_target;
use prost::Message;

// Replace `acme_v1` with the module of your generated prost types
// for acme.v1.Person.
use acme_v1::Person;

fuzz_target!(|data: &[u8]| {
    // Decode untrusted bytes. Errors (including RecursionLimitReached) are expected.
    if let Ok(msg) = Person::decode(data) {
        // Round-trip: re-encode, then decode again to exercise both directions.
        let mut buf = Vec::with_capacity(msg.encoded_len());
        msg.encode(&mut buf)
            .expect("re-encoding a successfully decoded message is infallible");
        let _ = Person::decode(buf.as_slice());
    }
});
"###;
    assert_eq!(code, expected);
}
