//! Core library of protobuf-fuzz-guard: a span-aware `.proto` parser, a
//! scanner for schema constructs behind known protobuf CVEs, and a generator
//! of fuzz harnesses for Python, C++, Go and Rust.
//!
//! All text is modelled by its UTF-8 bytes; each public function states its
//! result over spec functions of those bytes.

pub mod harness;
pub mod patterns;
pub mod proto;
pub mod scanner;
pub mod text;

pub use harness::{generate_all, generate_harness, HarnessError};
pub use patterns::{get_pattern_by_id, get_patterns, CvePattern};
pub use proto::{
    has_recursive_refs, max_nesting_depth, nesting_depth_fits, parse_proto, ProtoField, ProtoFile,
    ProtoMessage, Span,
};
pub use scanner::{
    clean_notice_due, has_critical, scan, scan_exit_code, tally_step, Finding, ScanTally, Severity,
};
