# pfg_core

A verified core for `protofuzz`: a span-aware `.proto` parser, a scanner for
schema constructs behind known protobuf CVEs, and a generator of fuzz
harnesses for Python, C++, Go and Rust. Every function under `src/` carries a
contract that Verus proves; text is modelled by its UTF-8 bytes.

## Layout

```
src/text.rs             byte-level text helpers (trim, find, replace, decimals)
src/proto/lexer.rs      line matchers: syntax, package, import, message, field
src/proto/model.rs      Span, ProtoField, ProtoMessage, ProtoFile and their views
src/proto/mod.rs        the parser as a state machine over lines; metrics
src/proto/laws.rs       spans, declaration depths, labels, metric bounds
src/proto/roundtrip.rs  written sources parse back: one message, a linear chain
src/patterns.rs         the CVE / RUSTSEC catalog and lookups
src/scanner.rs          the detection rules, stated rule by rule, their laws, and
                        the tally that decides the exit code of a scan
src/harness/            harness templates and their rendering; filled.rs and
                        layout.rs show that rendering fills every placeholder
app/main.rs             the `protofuzz` command line (clap, miette, serde_json)
tests/                  scenarios and properties on concrete inputs
```

## Trust

One function is believed rather than proved: `to_lowercase_text`, which calls
`str::to_lowercase`; its result is named (`lowercase`), not stated.
