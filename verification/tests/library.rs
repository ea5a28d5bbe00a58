//! Tests of the library's stated properties on concrete inputs, and of the
//! edge cases the parser, scanner and generator handle.

use pfg_core::harness::{file_extension, harness_file_name, languages, render_with_safe_name};
use pfg_core::proto::lexer::{match_field, match_import, match_message, match_package, match_syntax};
use pfg_core::{
    generate_all, generate_harness, get_pattern_by_id, get_patterns, has_critical, has_recursive_refs,
    max_nesting_depth, nesting_depth_fits, parse_proto, scan, clean_notice_due, scan_exit_code,
    tally_step, ProtoFile, ScanTally, Severity, Span,
};

const NESTED: &str = "syntax = \"proto2\";\npackage acme.v1;\nmessage Outer {\n  message Mid {\n    message Leaf {\n      string v = 1;\n    }\n    int32 x = 2;\n  }\n  repeated Mid mids = 3;\n}\nmessage Other {\n  bytes b = 1;\n}\n";

const DEEP6: &str = "message A {\n message B {\n  message C {\n   message D {\n    message E {\n     message F {\n      string v = 1;\n     }\n    }\n   }\n  }\n }\n}\n";

#[test]
fn spans_cover_names_and_stay_in_bounds() {
    let proto = parse_proto(NESTED, "n.proto");
    let all = proto.all_messages();
    assert_eq!(all.len(), 4);
    for m in &all {
        assert!(m.span.start <= m.span.end && m.span.end <= NESTED.len());
        assert_eq!(&NESTED[m.span.start..m.span.end], m.name.as_str());
        for f in &m.fields {
            assert!(f.span.start <= f.span.end && f.span.end <= NESTED.len());
        }
    }
}

#[test]
fn all_messages_is_depth_first() {
    let proto = parse_proto(NESTED, "n.proto");
    let names: Vec<&str> = proto.all_messages().iter().map(|m| m.name.as_str()).collect();
    assert_eq!(names, vec!["Outer", "Mid", "Leaf", "Other"]);
}

#[test]
fn nesting_depth_is_declaration_depth() {
    let proto = parse_proto(NESTED, "n.proto");
    let outer = &proto.messages[0];
    assert_eq!(outer.nesting_depth, 0);
    assert_eq!(outer.nested[0].nesting_depth, 1);
    assert_eq!(outer.nested[0].nested[0].nesting_depth, 2);
    assert_eq!(proto.messages[1].nesting_depth, 0);
    // Fields go to the innermost message that is still open.
    assert_eq!(outer.nested[0].fields[0].name, "x");
    assert_eq!(outer.fields[0].name, "mids");
    assert_eq!(proto.syntax, "proto2");
    assert_eq!(proto.package, "acme.v1");
}

#[test]
fn linear_chain_metric_is_triangular() {
    // 0 + 1 + ... + 5 for six levels.
    let proto = parse_proto(DEEP6, "");
    assert!(nesting_depth_fits(&proto));
    assert_eq!(max_nesting_depth(&proto), 15);
    let two = parse_proto("message A {\n message B {\n }\n}\n", "");
    assert_eq!(max_nesting_depth(&two), 1);
    let empty = parse_proto("", "");
    assert_eq!(max_nesting_depth(&empty), 0);
}

#[test]
fn labels_are_exclusive() {
    let src = "message M {\n repeated int32 a = 1;\n optional int32 b = 2;\n required int32 c = 3;\n int32 d = 4;\n}\n";
    let proto = parse_proto(src, "");
    let fs = &proto.messages[0].fields;
    assert_eq!(fs.len(), 4);
    for f in fs {
        assert!(!(f.repeated && f.optional));
    }
    assert!(fs[0].repeated && !fs[0].optional);
    assert!(fs[1].optional && !fs[1].repeated);
    assert!(!fs[2].optional && !fs[2].repeated);
    assert!(!fs[3].optional && !fs[3].repeated);
}

#[test]
fn default_file_is_proto3_and_empty() {
    let f = ProtoFile::default();
    assert_eq!(f.syntax, "proto3");
    assert!(f.package.is_empty() && f.messages.is_empty() && f.imports.is_empty());
    assert!(f.file_path.is_empty() && f.source.is_empty());
    let parsed = parse_proto("// only a comment\n\n", "c.proto");
    assert_eq!(parsed.syntax, "proto3");
    assert_eq!(parsed.file_path, "c.proto");
    assert_eq!(parsed.source, "// only a comment\n\n");
}

#[test]
fn span_length_and_emptiness() {
    let s = Span::new(3, 7);
    assert_eq!(s.start, 3);
    assert_eq!(s.end, 7);
    assert_eq!(s.len(), 4);
    assert!(!s.is_empty());
    let backwards = Span::new(7, 3);
    assert_eq!(backwards.len(), 0);
    assert!(backwards.is_empty());
    assert!(Span::new(5, 5).is_empty());
}

#[test]
fn unicode_whitespace_is_trimmed_around_statements() {
    let src = "\u{2003}syntax = \"proto2\";\n\u{a0}package  a.b ;\n\u{3000}\nimport\t\"x.proto\";\n";
    let proto = parse_proto(src, "");
    assert_eq!(proto.syntax, "proto2");
    assert_eq!(proto.package, "a.b");
    assert_eq!(proto.imports, vec!["x.proto".to_string()]);
}

#[test]
fn lexer_matchers() {
    assert_eq!(match_syntax("  syntax = \"proto2\";"), Some("proto2"));
    assert_eq!(match_syntax("syntax \"proto2\";"), None);
    assert_eq!(match_package("package a.b.c;"), Some("a.b.c"));
    assert_eq!(match_package("packagefoo;"), None);
    assert_eq!(match_package("package ;"), None);
    assert_eq!(match_import("import \"a/b.proto\";"), Some("a/b.proto"));
    assert_eq!(match_import("import a;"), None);
    let m = match_message("  message Foo_1 {").unwrap();
    assert_eq!((m.name_start, m.name_end), (10, 15));
    assert!(match_message("message{").is_none());
    assert!(match_message("message Foo").is_none());
    let f = match_field("  repeated pkg.Type my_field = 42 ;").unwrap();
    assert_eq!(f.label, Some("repeated"));
    assert_eq!(f.ty, "pkg.Type");
    assert_eq!(f.name, "my_field");
    assert_eq!(f.number, 42);
    assert_eq!((f.start, f.end), (2, 35));
    let g = match_field("map<string, int32> counts = 7;").unwrap();
    assert_eq!(g.label, None);
    assert_eq!(g.ty, "map<string, int32>");
    assert!(match_field("string name = ;").is_none());
    assert!(match_field("repeatedstring name = 1;").unwrap().label.is_none());
}

#[test]
fn field_number_beyond_i64_is_not_a_field() {
    let src = "message M {\n string big = 99999999999999999999;\n string ok = 9223372036854775807;\n}\n";
    let proto = parse_proto(src, "");
    let fs = &proto.messages[0].fields;
    assert_eq!(fs.len(), 1);
    assert_eq!(fs[0].name, "ok");
    assert_eq!(fs[0].number, i64::MAX);
}

#[test]
fn self_references_only_count_on_top_level_messages() {
    let src = "message T {\n T a = 1;\n message U {\n  U b = 1;\n }\n U c = 2;\n T d = 3;\n}\n";
    let proto = parse_proto(src, "");
    let refs = has_recursive_refs(&proto);
    assert_eq!(
        refs,
        vec![("T".to_string(), "a".to_string()), ("T".to_string(), "d".to_string())]
    );
}

#[test]
fn deep_nesting_finding_text_and_pattern() {
    let proto = parse_proto(DEEP6, "deep.proto");
    let findings = scan(&proto);
    assert_eq!(findings.len(), 1);
    let f = &findings[0];
    assert_eq!(f.severity, Severity::Critical);
    assert_eq!(f.pattern_id, Some("PROTOBUF-RECURSION-PROTO2"));
    assert_eq!(
        f.message,
        "Message nesting depth 15 exceeds safe threshold (5). Vulnerable to stack overflow via deeply nested parsing."
    );
    assert_eq!(f.file_path, "deep.proto");
    assert_eq!(f.span, Some(proto.messages[0].span));
}

#[test]
fn moderate_depth_finding_text() {
    let proto = parse_proto("message A {\n message B {\n  message C {\n  }\n }\n}\n", "m.proto");
    let findings = scan(&proto);
    assert_eq!(findings.len(), 1);
    assert_eq!(findings[0].severity, Severity::Warning);
    assert_eq!(findings[0].pattern_id, None);
    assert_eq!(
        findings[0].message,
        "Message nesting depth 3 is moderate. Consider adding recursion depth limits in generated harnesses."
    );
    assert!(!has_critical(&findings));
}

#[test]
fn repeated_bytes_fields_warning() {
    let src = "message Blob {\n repeated bytes a = 1;\n repeated bytes b = 2;\n bytes c = 3;\n repeated bytes d = 4;\n}\n";
    let proto = parse_proto(src, "b.proto");
    let findings = scan(&proto);
    assert_eq!(findings.len(), 1);
    let f = &findings[0];
    assert_eq!(f.severity, Severity::Warning);
    assert_eq!(f.pattern_id, Some("PROTOBUF-UNKNOWN-FIELD-OVERFLOW"));
    assert_eq!(
        f.message,
        "Blob has 3 repeated bytes fields. Potential for memory exhaustion via large payloads."
    );
    assert_eq!(f.span, Some(proto.messages[0].fields[0].span));
}

#[test]
fn finding_order_and_texts() {
    let src = "message Tree {\n Tree left = 1;\n group Legacy = 2;\n repeated Leaf leaves = 3;\n TYPE_GROUP old = 4;\n}\nmessage Leaf {\n}\n";
    let proto = parse_proto(src, "t.proto");
    let findings = scan(&proto);
    let msgs: Vec<&str> = findings.iter().map(|f| f.message.as_str()).collect();
    assert_eq!(
        msgs,
        vec![
            "Recursive message reference: Tree.left references itself. Vulnerable to unbounded recursion attacks.",
            "Field Tree.Legacy uses deprecated TYPE_GROUP. Known CVE surface (CVE-2024-7254 class). Replace with nested message.",
            "Field Tree.old uses deprecated TYPE_GROUP. Known CVE surface (CVE-2024-7254 class). Replace with nested message.",
            "Repeated nested message: Tree.leaves. Can cause memory exhaustion without size limits.",
        ]
    );
    let tree = &proto.messages[0];
    assert_eq!(findings[0].span, Some(tree.fields[0].span));
    assert_eq!(findings[1].span, Some(tree.fields[1].span));
    assert_eq!(findings[3].span, Some(tree.fields[2].span));
    assert_eq!(findings[3].severity, Severity::Warning);
}

#[test]
fn critical_iff_depth_recursion_or_group() {
    let cases = [
        ("message A {\n string s = 1;\n}\n", false),
        ("message A {\n A s = 1;\n}\n", true),
        ("message A {\n group G = 1;\n}\n", true),
        ("message A {\n repeated B s = 1;\n}\nmessage B {\n}\n", false),
        (DEEP6, true),
    ];
    for (src, critical) in cases {
        let findings = scan(&parse_proto(src, "c.proto"));
        assert_eq!(has_critical(&findings), critical, "{src}");
        assert_eq!(findings.iter().any(|f| f.severity == Severity::Critical), critical);
    }
    assert!(!has_critical(&[]));
}

#[test]
fn findings_name_the_file_and_known_patterns() {
    let src = "message Tree {\n Tree left = 1;\n group Legacy = 2;\n}\n";
    let proto = parse_proto(src, "dir/tree.proto");
    let findings = scan(&proto);
    assert!(!findings.is_empty());
    for f in &findings {
        assert_eq!(f.file_path, "dir/tree.proto");
        if let Some(id) = f.pattern_id {
            assert!(get_pattern_by_id(id).is_some());
        }
    }
}

#[test]
fn scan_is_deterministic() {
    let a = scan(&parse_proto(NESTED, "a.proto"));
    let b = scan(&parse_proto(NESTED, "a.proto"));
    assert_eq!(a, b);
}

#[test]
fn finding_help_lines() {
    let src = "message Tree {\n Tree left = 1;\n group Legacy = 2;\n repeated Leaf leaves = 3;\n}\nmessage Leaf {\n}\n";
    let findings = scan(&parse_proto(src, "t.proto"));
    assert_eq!(
        findings[0].help().as_deref(),
        Some("Unbounded stack recursion via deeply nested messages")
    );
    assert_eq!(
        findings[1].help().as_deref(),
        Some("Unbounded recursion via deeply nested TYPE_GROUP (fixed in 3.25.5, 4.27.5, 4.28.2)")
    );
    assert_eq!(findings[2].help(), None);
}

#[test]
fn severity_names() {
    assert_eq!(Severity::Critical.as_str(), "critical");
    assert_eq!(Severity::Warning.as_str(), "warning");
    assert_eq!(Severity::Info.as_str(), "info");
}

#[test]
fn pattern_ids_are_distinct_and_found_by_id() {
    let all = get_patterns(None);
    assert_eq!(all.len(), 6);
    for (i, p) in all.iter().enumerate() {
        for q in &all[i + 1..] {
            assert_ne!(p.id, q.id);
        }
        assert_eq!(get_pattern_by_id(p.id).as_ref(), Some(p));
    }
    assert!(get_pattern_by_id("CVE-0000-0000").is_none());
    let rustsec = get_pattern_by_id("RUSTSEC-2020-0002").unwrap();
    assert_eq!(rustsec.fixed_in, Some("0.6.1"));
    assert_eq!(rustsec.affected_languages, vec!["rust"]);
}

#[test]
fn patterns_filter_by_language() {
    let rust: Vec<&str> = get_patterns(Some("rust")).iter().map(|p| p.id).collect();
    assert_eq!(
        rust,
        vec!["PROTOBUF-RECURSION-PROTO2", "RUSTSEC-2020-0002", "RUSTSEC-2024-0437"]
    );
    let java: Vec<&str> = get_patterns(Some("java")).iter().map(|p| p.id).collect();
    assert_eq!(java, vec!["CVE-2024-7254-CLASS", "PROTOBUF-RECURSION-PROTO2"]);
    assert!(get_patterns(Some("cobol")).is_empty());
    assert_eq!(get_patterns(Some("cpp")).len(), 2);
}

#[test]
fn extensions_and_templates_agree() {
    let proto = parse_proto("message M {\n}\n", "m.proto");
    for lang in ["python", "cpp", "go", "rust", "java", "", "Python"] {
        let has_ext = file_extension(lang).is_some();
        let has_template = generate_harness(&proto, &proto.messages[0], lang).is_ok();
        assert_eq!(has_ext, has_template, "{lang}");
        assert_eq!(has_ext, languages().contains(&lang), "{lang}");
    }
    assert_eq!(file_extension("python"), Some(".py"));
    assert_eq!(file_extension("cpp"), Some(".cc"));
    assert_eq!(file_extension("go"), Some("_test.go"));
    assert_eq!(file_extension("rust"), Some(".rs"));
    assert_eq!(languages(), vec!["python", "cpp", "go", "rust"]);
}

#[test]
fn harness_file_names() {
    assert_eq!(harness_file_name("Person", "python"), "fuzz_person.py");
    assert_eq!(harness_file_name("Person", "rust"), "fuzz_person.rs");
    assert_eq!(harness_file_name("HTTPReq", "go"), "fuzz_httpreq_test.go");
    assert_eq!(harness_file_name("Ünïcode", "cpp"), "fuzz_ünïcode.cc");
    assert_eq!(harness_file_name("X", "java"), "fuzz_x");
}

#[test]
fn first_unsupported_language_is_reported() {
    let proto = parse_proto("message M {\n}\n", "m.proto");
    let err = generate_all(&proto, Some(&["python", "java", "cobol"])).unwrap_err();
    assert_eq!(err.message(), "No template for language: java");
    let ok = generate_all(&proto, Some(&["go", "go"])).unwrap();
    assert_eq!(ok.len(), 2);
    assert_eq!(ok[0].0, "go");
    assert_eq!(ok[0].1[0].0, "M");
    let none = generate_all(&proto, Some(&[])).unwrap();
    assert!(none.is_empty());
}

#[test]
fn generated_names_follow_package_and_path() {
    // No package: modules come from the file's stem.
    let proto = parse_proto("message Req {\n}\n", "a/b/api.v2.proto");
    let py = generate_harness(&proto, &proto.messages[0], "python").unwrap();
    assert!(py.contains("from api.v2_pb2 import Req"));
    assert!(py.contains("# Generated for: Req\n"));
    let go = generate_harness(&proto, &proto.messages[0], "go").unwrap();
    assert!(go.contains("package fuzz\n"));
    assert!(go.contains("func Fuzzreq("));
    let rs = generate_harness(&proto, &proto.messages[0], "rust").unwrap();
    assert!(rs.contains("use api.v2::Req;"));
    let cpp = generate_harness(&proto, &proto.messages[0], "cpp").unwrap();
    assert!(cpp.contains("#include \"api.v2.pb.h\""));
    // No path at all: the stem defaults to `proto`.
    let anon = parse_proto("message Req {\n}\n", "");
    let py = generate_harness(&anon, &anon.messages[0], "python").unwrap();
    assert!(py.contains("from proto_pb2 import Req"));
    // A package wins over the path.
    let pkg = parse_proto("package x.y;\nmessage Req {\n}\n", "a/b/api.proto");
    let go = generate_harness(&pkg, &pkg.messages[0], "go").unwrap();
    assert!(go.contains("package x_y\n"));
    assert!(go.contains("msg := &x.y.Req{}"));
}

#[test]
fn single_message_parses_back() {
    for (name, field, number, repeated) in
        [("Abc9", "my_f", 12345i64, true), ("_m", "x_1", 0, false), ("Q", "optional", i64::MAX, false)]
    {
        let label = if repeated { "repeated " } else { "" };
        let src = format!("message {name} {{\n    {label}string {field} = {number};\n}}\n");
        let proto = parse_proto(&src, "gen.proto");
        assert_eq!(proto.messages.len(), 1);
        let m = &proto.messages[0];
        assert_eq!(m.name, name);
        assert!(m.nested.is_empty());
        assert_eq!(m.fields.len(), 1);
        assert_eq!(m.fields[0].name, field);
        assert_eq!(m.fields[0].ty, "string");
        assert_eq!(m.fields[0].number, number);
        assert_eq!(m.fields[0].repeated, repeated);
        assert!(!m.fields[0].optional);
    }
}

#[test]
fn tree_example_has_three_critical_findings() {
    let src = "syntax = \"proto3\";\nmessage Tree {\n    string value = 1;\n    Tree left = 2;\n    Tree right = 3;\n    group Legacy = 4;\n}\n";
    let proto = parse_proto(src, "tree.proto");
    let findings = scan(&proto);
    assert_eq!(findings.len(), 3);
    assert!(findings.iter().all(|f| f.severity == Severity::Critical));
    assert!(has_critical(&findings));
    let left = findings[0].span.unwrap();
    assert_eq!(&src[left.start..left.end], "Tree left = 2;");
    let group = findings[2].span.unwrap();
    assert_eq!(&src[group.start..group.end], "group Legacy = 4;");
}

#[test]
fn finding_spans_point_into_the_source() {
    let sources = [
        NESTED,
        DEEP6,
        "message Tree {\n Tree left = 1;\n group Legacy = 2;\n repeated Leaf leaves = 3;\n}\nmessage Leaf {\n repeated bytes a = 1;\n repeated bytes b = 2;\n repeated bytes c = 3;\n}\n",
        "message A {\n message B {\n  message C {\n  }\n }\n}\n",
    ];
    for src in sources {
        let proto = parse_proto(src, "s.proto");
        let findings = scan(&proto);
        assert!(!findings.is_empty());
        for f in &findings {
            if let Some(s) = f.span {
                assert!(s.start <= s.end && s.end <= src.len());
            }
        }
    }
}

#[test]
fn generate_all_matches_generate_harness() {
    let proto = parse_proto("package p;\nmessage A {\n}\nmessage B {\n}\n", "x.proto");
    let all = generate_all(&proto, Some(&["rust", "python"])).unwrap();
    assert_eq!(all.len(), 2);
    for (i, lang) in ["rust", "python"].iter().enumerate() {
        assert_eq!(all[i].0, *lang);
        assert_eq!(all[i].1.len(), 2);
        for (k, m) in proto.messages.iter().enumerate() {
            assert_eq!(all[i].1[k].0, m.name);
            assert_eq!(all[i].1[k].1, generate_harness(&proto, m, lang).unwrap());
        }
    }
}

#[test]
fn nesting_metric_is_at_most_the_squared_length() {
    for src in [NESTED, DEEP6, "message A {\n}\n", "", "message A {\nmessage B {\nmessage C {\n"] {
        let proto = parse_proto(src, "");
        assert!(nesting_depth_fits(&proto));
        assert!(max_nesting_depth(&proto) <= src.len() * src.len());
    }
    let open_chain = parse_proto("message A {\nmessage B {\nmessage C {\n", "");
    assert_eq!(max_nesting_depth(&open_chain), 3);
}

#[test]
fn catalog_lists_the_advisories() {
    let all = get_patterns(None);
    assert!(all.iter().any(|p| p.id.contains("CVE-2024-7254")));
    assert!(all.iter().any(|p| p.title.contains("TYPE_GROUP")));
    assert!(all.iter().any(|p| p.id == "RUSTSEC-2024-0437"));
    let group = get_pattern_by_id("CVE-2024-7254-CLASS").unwrap();
    assert_eq!(group.affected_languages, vec!["java", "kotlin"]);
    assert_eq!(group.fixed_in, Some("3.25.5, 4.27.5, 4.28.2"));
}

#[test]
fn file_stem_agrees_with_std_path() {
    let paths = [
        "person.proto",
        "a/b/person.proto",
        "/abs/dir/x.y.proto",
        "dir/",
        "dir/.",
        "dir//file.proto//",
        ".hidden",
        "a/.hidden.proto",
        "..",
        "a/..",
        ".",
        "/",
        "noext",
        "trailing.",
        "a/b/c.tar.gz",
        "./rel/./p.proto",
        "ünï/cödé.proto",
    ];
    for p in paths {
        let proto = parse_proto("message M {\n}\n", p);
        let cpp = generate_harness(&proto, &proto.messages[0], "cpp").unwrap();
        let stem = std::path::Path::new(p)
            .file_stem()
            .map_or_else(|| "proto".to_string(), |s| s.to_string_lossy().into_owned());
        let header_line = format!("#include \"{stem}.pb.h\"");
        assert!(cpp.contains(&header_line), "{p}: {cpp}");
    }
}

#[test]
fn fully_qualified_field_type() {
    let f = match_field("    .pkg.Msg child = 1;").unwrap();
    assert_eq!(f.ty, ".pkg.Msg");
    assert_eq!(f.name, "child");
    assert_eq!(f.number, 1);
    assert_eq!(f.label, None);
    assert_eq!((f.start, f.end), (4, 23));
    let g = match_field("repeated .a.B items = 2;").unwrap();
    assert_eq!(g.label, Some("repeated"));
    assert_eq!(g.ty, ".a.B");
    let proto = parse_proto("message M {\n    .pkg.Msg child = 1;\n}\n", "");
    assert_eq!(proto.messages[0].fields[0].ty, ".pkg.Msg");
}

#[test]
fn header_closed_on_its_own_line() {
    let p = parse_proto("message A {}\nmessage B {\n    string x = 1;\n}\n", "ab.proto");
    assert_eq!(p.messages.len(), 2);
    assert_eq!(p.messages[0].name, "A");
    assert!(p.messages[0].nested.is_empty());
    assert_eq!(p.messages[1].name, "B");
    assert_eq!(p.messages[1].nesting_depth, 0);
    assert_eq!(p.messages[1].fields[0].name, "x");
    // A one-line message closes itself; fields must stand on their own line.
    let q = parse_proto("message M { string v = 1; }\nmessage N {\n}\n", "");
    assert_eq!(q.messages.len(), 2);
    assert!(q.messages[0].fields.is_empty());
    assert_eq!(q.messages[1].nesting_depth, 0);
}

#[test]
fn harnesses_for_nested_messages() {
    let p = parse_proto(
        "message Outer {\n    message Inner {\n        string v = 1;\n    }\n    Inner i = 1;\n}\n",
        "o.proto",
    );
    let r = generate_all(&p, Some(&["python"])).unwrap();
    let names: Vec<&str> = r[0].1.iter().map(|(n, _)| n.as_str()).collect();
    assert_eq!(names, vec!["Outer", "Inner"]);
    let inner = &p.messages[0].nested[0];
    assert_eq!(r[0].1[1].1, generate_harness(&p, inner, "python").unwrap());
}

#[test]
fn scan_tally_drives_exit_code_and_notice() {
    let t0 = ScanTally::new();
    assert_eq!(t0, ScanTally { critical: false, found: false });
    assert_eq!(scan_exit_code(t0), 0);
    assert!(clean_notice_due(t0, false));
    assert!(!clean_notice_due(t0, true));
    let warn = scan(&parse_proto("message A {\n message B {\n  message C {\n  }\n }\n}\n", ""));
    let t1 = tally_step(t0, &warn);
    assert_eq!(t1, ScanTally { critical: false, found: true });
    assert_eq!(scan_exit_code(t1), 0);
    assert!(!clean_notice_due(t1, false));
    let crit = scan(&parse_proto("message N {\n N n = 1;\n}\n", ""));
    let t2 = tally_step(t1, &crit);
    assert_eq!(t2, ScanTally { critical: true, found: true });
    assert_eq!(scan_exit_code(t2), 1);
    let t3 = tally_step(t2, &[]);
    assert_eq!(scan_exit_code(t3), 1);
}

#[test]
fn findings_are_never_info_and_field_spans_end_at_semicolons() {
    let src = "message Tree {\n Tree left = 1;\n group Legacy = 2;\n repeated Leaf leaves = 3;\n}\nmessage Leaf {\n repeated bytes a = 1;\n repeated bytes b = 2;\n repeated bytes c = 3;\n}\n";
    let proto = parse_proto(src, "");
    assert!(scan(&proto).iter().all(|f| f.severity != Severity::Info));
    for m in proto.all_messages() {
        for f in &m.fields {
            assert!(f.span.start < f.span.end);
            assert!(src[f.span.start..f.span.end].ends_with(';'));
        }
    }
}

#[test]
fn render_with_a_given_safe_name() {
    let p = parse_proto("package a.b;\nmessage Req {\n}\n", "dir/api.proto");
    let m = &p.messages[0];
    let out = render_with_safe_name(
        "%MESSAGE_NAME%|%SAFE_NAME%|%PROTO_PACKAGE%|%PROTO_MODULE%|%PROTO_MODULE_RUST%|%PROTO_BASENAME%|%GO_PACKAGE%|%PROTO_IMPORT%|%OTHER%",
        &p,
        m,
        "chosen",
    );
    assert_eq!(
        out,
        "Req|chosen|a.b.|a_b_pb2|a_b|api|a_b|\"google.golang.org/protobuf/proto\"|%OTHER%"
    );
    let py = generate_harness(&p, m, "python").unwrap();
    let tpl = pfg_core::harness::templates::PYTHON;
    assert_eq!(py, render_with_safe_name(tpl, &p, m, "req"));
    assert_ne!(py, render_with_safe_name(tpl, &p, m, "Req"));
}

#[test]
fn parsed_files_clone_to_equal_values() {
    let p = parse_proto(NESTED, "n.proto");
    let c = p.clone();
    assert_eq!(c, p);
    let m = p.messages[0].clone();
    assert_eq!(m, p.messages[0]);
}

#[test]
fn parsed_linear_chain_has_triangular_metric() {
    for d in 1..=7usize {
        let mut src = String::new();
        for k in 0..d {
            src.push_str(&format!("message M{k} {{\n"));
        }
        for _ in 0..d {
            src.push_str("}\n");
        }
        let proto = parse_proto(&src, "");
        assert_eq!(proto.messages.len(), 1);
        assert_eq!(max_nesting_depth(&proto), d * (d - 1) / 2);
    }
}

#[test]
fn match_message_shape() {
    assert!(match_message("\t message \tX_1\t{ anything").is_some());
    let m = match_message("message A{").unwrap();
    assert_eq!((m.name_start, m.name_end), (8, 9));
    assert!(match_message("message 1A {").is_none());
    assert!(match_message("messageA {").is_none());
    assert!(match_message("message A.B {").is_none());
    assert!(match_message(" message A").is_none());
}

#[test]
fn harnesses_fill_every_placeholder() {
    for (pkg, path) in [("", "a/b/x.proto"), ("acme.v1", "p.proto"), ("z", "")] {
        let src = if pkg.is_empty() {
            "message Person {\n}\n".to_string()
        } else {
            format!("package {pkg};\nmessage Person {{\n}}\n")
        };
        let p = parse_proto(&src, path);
        for lang in ["python", "cpp", "go", "rust"] {
            let code = generate_harness(&p, &p.messages[0], lang).unwrap();
            assert!(!code.contains('%'), "{lang}");
            assert!(code.contains("Person"));
            if !pkg.is_empty() {
                assert!(code.contains(&format!("{pkg}.Person")), "{lang}");
            }
        }
    }
}

#[test]
fn scan_run_over_several_files() {
    let files = [
        "message A {\n string s = 1;\n}\n",
        "message A {\n message B {\n  message C {\n  }\n }\n}\n",
        "message N {\n N n = 1;\n}\n",
    ];
    let mut t = ScanTally::new();
    let mut codes = Vec::new();
    for f in files {
        t = tally_step(t, &scan(&parse_proto(f, "f.proto")));
        codes.push(scan_exit_code(t));
    }
    assert_eq!(codes, vec![0, 0, 1]);
    assert!(!clean_notice_due(t, false));
    let mut clean = ScanTally::new();
    for f in &files[..1] {
        clean = tally_step(clean, &scan(&parse_proto(f, "f.proto")));
    }
    assert!(clean_notice_due(clean, false));
    assert_eq!(scan_exit_code(clean), 0);
}
