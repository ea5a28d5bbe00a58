//! Generate fuzz harnesses for protobuf messages across languages.
//!
//! A harness is a language's template with its `%TOKEN%` placeholders
//! replaced, one after the other, by text drawn from the file and the message
//! ([`harness_text`]).
use vstd::prelude::*;
use vstd::string::*;
use vstd::utf8::*;
use crate::text::{
    ascii_bytes, lemma_after_ascii, lemma_encode_concat, own, push_str, push_string,
    replace_all, replace_text, sbytes, slice_str, str_eq, at_boundary, DOT, SLASH,
};
use crate::proto::{flatten, messages_view, pairs_view, refs_view, FileView, MessageView, ProtoFile, ProtoMessage};

pub mod templates;
pub mod filled;
pub mod layout;

verus! {

broadcast use vstd::seq::group_seq_axioms;

/// Error returned when a harness cannot be generated.
#[derive(Debug)]
pub enum HarnessError {
    UnsupportedLanguage(String),
}


impl HarnessError {
    /// The language that has no template.
    pub open spec fn language(self) -> Seq<u8> {
        match self {
            HarnessError::UnsupportedLanguage(l) => sbytes(l),
        }
    }

    /// The error's message: `No template for language: <lang>`.
    pub fn message(&self) -> (r: String)
        ensures
            sbytes(r) == "No template for language: ".spec_bytes() + self.language(),
    {
        match self {
            HarnessError::UnsupportedLanguage(l) => {
                let mut r = String::new();
                push_str(&mut r, "No template for language: ");
                push_string(&mut r, l);
                assert(sbytes(r) =~= "No template for language: ".spec_bytes() + self.language());
                r
            },
        }
    }
}

/// The harness languages, in their default order.
pub open spec fn language_list() -> Seq<Seq<u8>> {
    seq!["python".spec_bytes(), "cpp".spec_bytes(), "go".spec_bytes(), "rust".spec_bytes()]
}

/// The bytes of each string slice.
pub open spec fn strs_view(v: Seq<&str>) -> Seq<Seq<u8>> {
    v.map_values(|s: &str| s.spec_bytes())
}

/// Languages for which a harness can be generated.
pub fn languages() -> (r: Vec<&'static str>)
    ensures
        strs_view(r@) == language_list(),
{
    let r = vec!["python", "cpp", "go", "rust"];
    assert(strs_view(r@) =~= language_list());
    r
}

/// The file extension of a harness in `lang`.
pub open spec fn extension_of(lang: Seq<u8>) -> Option<Seq<u8>> {
    if lang == "python".spec_bytes() {
        Some(".py".spec_bytes())
    } else if lang == "cpp".spec_bytes() {
        Some(".cc".spec_bytes())
    } else if lang == "go".spec_bytes() {
        Some("_test.go".spec_bytes())
    } else if lang == "rust".spec_bytes() {
        Some(".rs".spec_bytes())
    } else {
        None
    }
}

/// The view of an optional string slice.
pub open spec fn opt_str_view(s: Option<&str>) -> Option<Seq<u8>> {
    match s {
        Some(x) => Some(x.spec_bytes()),
        None => None,
    }
}

/// File extension used for a generated harness in `language`.
pub fn file_extension(language: &str) -> (r: Option<&'static str>)
    ensures
        opt_str_view(r) == extension_of(language.spec_bytes()),
{
    if str_eq(language, "python") {
        Some(".py")
    } else if str_eq(language, "cpp") {
        Some(".cc")
    } else if str_eq(language, "go") {
        Some("_test.go")
    } else if str_eq(language, "rust") {
        Some(".rs")
    } else {
        None
    }
}

/// The template for `lang`.
pub open spec fn template_of(lang: Seq<u8>) -> Option<Seq<u8>> {
    if lang == "python".spec_bytes() {
        Some(templates::PYTHON.spec_bytes())
    } else if lang == "cpp".spec_bytes() {
        Some(templates::CPP.spec_bytes())
    } else if lang == "go".spec_bytes() {
        Some(templates::GO.spec_bytes())
    } else if lang == "rust".spec_bytes() {
        Some(templates::RUST.spec_bytes())
    } else {
        None
    }
}

/// What `str::to_lowercase` returns for a text.
pub uninterp spec fn lowercase(s: Seq<char>) -> Seq<char>;

/// `str::to_lowercase`: the lowercase equivalent of a text, by the Unicode
/// `Lowercase` property. Its result is named, not stated.
#[verifier::external_body]
fn to_lowercase_text(s: &str) -> (r: String)
    ensures
        r@ == lowercase(s@),
{
    s.to_lowercase()
}

/// `.` replaced by `_` in a text.
pub open spec fn underscored(s: Seq<u8>) -> Seq<u8> {
    replace_all(s, ".".spec_bytes(), "_".spec_bytes())
}

/// Replacing `.` by `_` changes each `.` and nothing else.
proof fn lemma_underscored_bytes(s: Seq<u8>)
    ensures
        underscored(s).len() == s.len(),
        forall|i: int| 0 <= i < s.len() ==> #[trigger] underscored(s)[i] == (if s[i] == DOT { 95u8 } else { s[i] }),
    decreases s.len(),
{
    reveal_strlit(".");
    reveal_strlit("_");
    is_ascii_chars_encode_utf8("."@);
    is_ascii_chars_encode_utf8("_"@);
    let pat = ".".spec_bytes();
    let rep = "_".spec_bytes();
    assert(pat =~= seq![DOT]);
    assert(rep =~= seq![95u8]);
    if s.len() > 0 {
        let rest = s.drop_first();
        lemma_underscored_bytes(rest);
        assert(s.take(1) == pat <==> s[0] == DOT) by {
            if s[0] == DOT {
                assert(s.take(1) =~= pat);
            }
            if s.take(1) == pat {
                assert(s.take(1)[0] == s[0]);
            }
        }
        assert(s.skip(1) =~= rest);
        let r = underscored(s);
        let head: u8 = if s[0] == DOT { 95u8 } else { s[0] };
        assert(r == seq![head] + underscored(rest)) by {
            if s[0] == DOT {
                assert(rep =~= seq![head]);
            }
        }
        assert forall|i: int| 0 <= i < s.len() implies #[trigger] r[i] == (if s[i] == DOT { 95u8 } else { s[i] }) by {
            if i > 0 {
                assert(r[i] == underscored(rest)[i - 1]);
                assert(rest[i - 1] == s[i]);
            }
        }
    }
}

/// Every `.` of the package becomes `_` in the Go package and the Python
/// and Rust module names, and every other byte stays: `a.b.c` gives
/// `a_b_c`, with no `.` left.
pub proof fn law_package_dots_to_underscores(f: FileView)
    requires
        f.package.len() > 0,
    ensures
        go_package_of(f.package).len() == f.package.len(),
        forall|i: int|
            0 <= i < f.package.len() ==> #[trigger] go_package_of(f.package)[i] == (if f.package[i] == DOT {
                95u8
            } else {
                f.package[i]
            }),
        forall|i: int| 0 <= i < f.package.len() ==> #[trigger] go_package_of(f.package)[i] != DOT,
        rust_module_of(f) == go_package_of(f.package),
        python_module_of(f) == go_package_of(f.package) + "_pb2".spec_bytes(),
{
    lemma_underscored_bytes(f.package);
    let g = go_package_of(f.package);
    assert forall|i: int| 0 <= i < f.package.len() implies #[trigger] g[i] != DOT by {
        assert(g[i] == (if f.package[i] == DOT { 95u8 } else { f.package[i] }));
    }
}

/// The message name used in harness identifiers.
pub open spec fn safe_name_of(name: Seq<u8>) -> Seq<u8> {
    encode_utf8(lowercase(decode_utf8(underscored(name))))
}

proof fn lemma_dot_pattern()
    ensures
        ".".spec_bytes().len() > 0,
        ascii_bytes(".".spec_bytes()),
{
    reveal_strlit(".");
    is_ascii_chars_encode_utf8("."@);
}

fn underscore_dots(s: &str) -> (r: String)
    ensures
        sbytes(r) == underscored(s.spec_bytes()),
{
    proof {
        lemma_dot_pattern();
    }
    replace_text(s, ".", "_")
}

fn safe_name(name: &str) -> (r: String)
    ensures
        sbytes(r) == safe_name_of(name.spec_bytes()),
{
    let u = underscore_dots(name);
    proof {
        encode_utf8_decode_utf8(u@);
    }
    to_lowercase_text(u.as_str())
}


/// The end of `p[..e]` once trailing `/` and `/.` are removed; a lone
/// leading `/` stays.
pub open spec fn path_trim_end(p: Seq<u8>, e: int) -> int
    decreases e,
{
    if e > 1 && e <= p.len() && p[e - 1] == SLASH {
        path_trim_end(p, e - 1)
    } else if e >= 2 && e <= p.len() && p[e - 1] == DOT && p[e - 2] == SLASH {
        path_trim_end(p, e - 1)
    } else {
        e
    }
}

/// The last position before `e` that holds `c`.
pub open spec fn last_before(p: Seq<u8>, e: int, c: u8) -> Option<int>
    decreases e,
{
    if e <= 0 || e > p.len() {
        None
    } else if p[e - 1] == c {
        Some(e - 1)
    } else {
        last_before(p, e - 1, c)
    }
}

/// The byte range of the last component of a `/`-separated path, unless
/// that component is the root, `.` or `..` (`Path::file_name` on Unix).
pub open spec fn path_file_name(p: Seq<u8>) -> Option<(int, int)> {
    let e = path_trim_end(p, p.len() as int);
    let s = match last_before(p, e, SLASH) {
        Some(k) => k + 1,
        None => 0,
    };
    let seg = p.subrange(s, e);
    if seg.len() == 0 || seg == ".".spec_bytes() || seg == "..".spec_bytes() {
        None
    } else {
        Some((s, e))
    }
}

/// The file name without its last extension; a leading dot does not start
/// an extension (`Path::file_stem` on Unix).
pub open spec fn path_stem(p: Seq<u8>) -> Option<Seq<u8>> {
    match path_file_name(p) {
        Some((s, e)) => match last_before(p, e, DOT) {
            Some(k) => if k > s {
                Some(p.subrange(s, k))
            } else {
                Some(p.subrange(s, e))
            },
            None => Some(p.subrange(s, e)),
        },
        None => None,
    }
}

/// Facts about [`path_trim_end`].
proof fn lemma_path_trim_end(p: Seq<u8>, e: int)
    requires
        0 <= e <= p.len(),
    ensures
        0 <= path_trim_end(p, e) <= e,
        path_trim_end(p, e) < e ==> p[path_trim_end(p, e)] < 0x80,
    decreases e,
{
    if e > 1 && p[e - 1] == SLASH {
        lemma_path_trim_end(p, e - 1);
    } else if e >= 2 && p[e - 1] == DOT && p[e - 2] == SLASH {
        lemma_path_trim_end(p, e - 1);
    }
}

/// Facts about [`last_before`].
proof fn lemma_last_before(p: Seq<u8>, e: int, c: u8)
    requires
        0 <= e <= p.len(),
    ensures
        last_before(p, e, c) matches Some(k) ==> 0 <= k < e && p[k] == c,
    decreases e,
{
    if e > 0 && p[e - 1] != c {
        lemma_last_before(p, e - 1, c);
    }
}

fn trim_path_end(p: &[u8]) -> (r: usize)
    ensures
        r == path_trim_end(p@, p@.len() as int),
{
    let mut e = p.len();
    while e > 0
        invariant
            e <= p.len(),
            path_trim_end(p@, p@.len() as int) == path_trim_end(p@, e as int),
        decreases e,
    {
        if e > 1 && p[e - 1] == SLASH {
            e = e - 1;
        } else if e >= 2 && p[e - 1] == DOT && p[e - 2] == SLASH {
            e = e - 1;
        } else {
            return e;
        }
    }
    e
}

fn find_last(p: &[u8], e: usize, c: u8) -> (r: Option<usize>)
    requires
        e <= p.len(),
    ensures
        match last_before(p@, e as int, c) {
            Some(k) => r == Some(k as usize),
            None => r is None,
        },
{
    let mut k = e;
    while k > 0
        invariant
            k <= e <= p.len(),
            last_before(p@, e as int, c) == last_before(p@, k as int, c),
        decreases k,
    {
        if p[k - 1] == c {
            return Some(k - 1);
        }
        k = k - 1;
    }
    None
}

/// The stem of a path, as `Path::file_stem` gives it on Unix.
fn path_stem_text(path: &str) -> (r: Option<String>)
    ensures
        match r {
            Some(x) => path_stem(path.spec_bytes()) == Some(sbytes(x)),
            None => path_stem(path.spec_bytes()) is None,
        },
{
    let p = path.as_bytes();
    let ghost pv = p@;
    proof {
        encode_utf8_valid_utf8(path@);
        lemma_path_trim_end(pv, pv.len() as int);
    }
    let e = trim_path_end(p);
    let s = match find_last(p, e, SLASH) {
        Some(k) => {
            proof {
                lemma_last_before(pv, e as int, SLASH);
                lemma_after_ascii(pv, k as int);
            }
            k + 1
        },
        None => 0,
    };
    let seg = slice_str(path, s, e);
    if seg.as_bytes().len() == 0 || str_eq(seg, ".") || str_eq(seg, "..") {
        return None;
    }
    match find_last(p, e, DOT) {
        Some(k) => {
            proof {
                lemma_last_before(pv, e as int, DOT);
            }
            if k > s {
                Some(own(slice_str(path, s, k)))
            } else {
                Some(own(seg))
            }
        },
        None => Some(own(seg)),
    }
}

/// `proto`
pub open spec fn default_stem() -> Seq<u8> {
    "proto".spec_bytes()
}

/// The file stem used to name modules: the stem of the file path, or
/// `proto` when there is none.
pub open spec fn file_stem_of(path: Seq<u8>) -> Seq<u8> {
    if path.len() == 0 {
        default_stem()
    } else {
        match path_stem(path) {
            Some(x) => x,
            None => default_stem(),
        }
    }
}

fn file_stem(proto: &ProtoFile) -> (r: String)
    ensures
        sbytes(r) == file_stem_of(proto@.file_path),
{
    let path = proto.file_path.as_str();
    if path.as_bytes().len() == 0 {
        return own("proto");
    }
    match path_stem_text(path) {
        Some(x) => x,
        None => own("proto"),
    }
}

/// The Go package: the package with `.` as `_`, or `fuzz`.
pub open spec fn go_package_of(pkg: Seq<u8>) -> Seq<u8> {
    if pkg.len() == 0 {
        "fuzz".spec_bytes()
    } else {
        underscored(pkg)
    }
}

fn go_package(proto: &ProtoFile) -> (r: String)
    ensures
        sbytes(r) == go_package_of(proto@.package),
{
    if proto.package.as_str().as_bytes().len() == 0 {
        own("fuzz")
    } else {
        underscore_dots(proto.package.as_str())
    }
}

/// The Python module: `<package>_pb2`, or `<stem>_pb2` without a package.
pub open spec fn python_module_of(f: FileView) -> Seq<u8> {
    if f.package.len() == 0 {
        file_stem_of(f.file_path) + "_pb2".spec_bytes()
    } else {
        underscored(f.package) + "_pb2".spec_bytes()
    }
}

fn proto_module_py(proto: &ProtoFile) -> (r: String)
    ensures
        sbytes(r) == python_module_of(proto@),
{
    let mut r = if proto.package.as_str().as_bytes().len() == 0 {
        file_stem(proto)
    } else {
        underscore_dots(proto.package.as_str())
    };
    push_str(&mut r, "_pb2");
    r
}

/// The Rust module: the package with `.` as `_`, or the file stem.
pub open spec fn rust_module_of(f: FileView) -> Seq<u8> {
    if f.package.len() == 0 {
        file_stem_of(f.file_path)
    } else {
        underscored(f.package)
    }
}

fn proto_module_rust(proto: &ProtoFile) -> (r: String)
    ensures
        sbytes(r) == rust_module_of(proto@),
{
    if proto.package.as_str().as_bytes().len() == 0 {
        file_stem(proto)
    } else {
        underscore_dots(proto.package.as_str())
    }
}

/// `<package>.`, or nothing without a package.
pub open spec fn package_prefix_of(pkg: Seq<u8>) -> Seq<u8> {
    if pkg.len() == 0 {
        Seq::empty()
    } else {
        pkg + ".".spec_bytes()
    }
}

fn package_prefix(proto: &ProtoFile) -> (r: String)
    ensures
        sbytes(r) == package_prefix_of(proto@.package),
{
    if proto.package.as_str().as_bytes().len() == 0 {
        String::new()
    } else {
        let mut r = proto.package.clone();
        push_str(&mut r, ".");
        r
    }
}


/// An ASCII text is an ASCII byte string.
proof fn lemma_ascii_text(s: &str)
    requires
        is_ascii_chars(s@),
        s@.len() > 0,
    ensures
        ascii_bytes(s.spec_bytes()),
        s.spec_bytes().len() > 0,
{
    is_ascii_chars_encode_utf8(s@);
}

/// The Go import line of a harness.
pub open spec fn go_import() -> Seq<u8> {
    "\"google.golang.org/protobuf/proto\"".spec_bytes()
}

/// The template `t` with its placeholders replaced, in this order.
pub open spec fn render(t: Seq<u8>, f: FileView, m: MessageView) -> Seq<u8> {
    render_with(t, f, m, safe_name_of(m.name))
}

/// The template `t` rendered for message `m` of file `f`, with `safe` as the
/// message's identifier name.
pub open spec fn render_with(t: Seq<u8>, f: FileView, m: MessageView, safe: Seq<u8>) -> Seq<u8> {
    let t1 = replace_all(t, "%MESSAGE_NAME%".spec_bytes(), m.name);
    let t2 = replace_all(t1, "%SAFE_NAME%".spec_bytes(), safe);
    let t3 = replace_all(t2, "%PROTO_PACKAGE%".spec_bytes(), package_prefix_of(f.package));
    let t4 = replace_all(t3, "%PROTO_MODULE%".spec_bytes(), python_module_of(f));
    let t5 = replace_all(t4, "%PROTO_MODULE_RUST%".spec_bytes(), rust_module_of(f));
    let t6 = replace_all(t5, "%PROTO_BASENAME%".spec_bytes(), file_stem_of(f.file_path));
    let t7 = replace_all(t6, "%PROTO_IMPORT%".spec_bytes(), go_import());
    replace_all(t7, "%GO_PACKAGE%".spec_bytes(), go_package_of(f.package))
}

/// The harness for message `m` of file `f` in `lang`, when `lang` has a template.
pub open spec fn harness_text(f: FileView, m: MessageView, lang: Seq<u8>) -> Option<Seq<u8>> {
    match template_of(lang) {
        Some(t) => Some(render(t, f, m)),
        None => None,
    }
}

fn ph_message_name() -> (r: &'static str)
    ensures
        r.spec_bytes() == "%MESSAGE_NAME%".spec_bytes(),
        ascii_bytes(r.spec_bytes()),
        r.spec_bytes().len() > 0,
{
    proof {
        reveal_strlit("%MESSAGE_NAME%");
        lemma_ascii_text("%MESSAGE_NAME%");
    }
    "%MESSAGE_NAME%"
}

fn ph_safe_name() -> (r: &'static str)
    ensures
        r.spec_bytes() == "%SAFE_NAME%".spec_bytes(),
        ascii_bytes(r.spec_bytes()),
        r.spec_bytes().len() > 0,
{
    proof {
        reveal_strlit("%SAFE_NAME%");
        lemma_ascii_text("%SAFE_NAME%");
    }
    "%SAFE_NAME%"
}

fn ph_proto_package() -> (r: &'static str)
    ensures
        r.spec_bytes() == "%PROTO_PACKAGE%".spec_bytes(),
        ascii_bytes(r.spec_bytes()),
        r.spec_bytes().len() > 0,
{
    proof {
        reveal_strlit("%PROTO_PACKAGE%");
        lemma_ascii_text("%PROTO_PACKAGE%");
    }
    "%PROTO_PACKAGE%"
}

fn ph_proto_module() -> (r: &'static str)
    ensures
        r.spec_bytes() == "%PROTO_MODULE%".spec_bytes(),
        ascii_bytes(r.spec_bytes()),
        r.spec_bytes().len() > 0,
{
    proof {
        reveal_strlit("%PROTO_MODULE%");
        lemma_ascii_text("%PROTO_MODULE%");
    }
    "%PROTO_MODULE%"
}

fn ph_proto_module_rust() -> (r: &'static str)
    ensures
        r.spec_bytes() == "%PROTO_MODULE_RUST%".spec_bytes(),
        ascii_bytes(r.spec_bytes()),
        r.spec_bytes().len() > 0,
{
    proof {
        reveal_strlit("%PROTO_MODULE_RUST%");
        lemma_ascii_text("%PROTO_MODULE_RUST%");
    }
    "%PROTO_MODULE_RUST%"
}

fn ph_proto_basename() -> (r: &'static str)
    ensures
        r.spec_bytes() == "%PROTO_BASENAME%".spec_bytes(),
        ascii_bytes(r.spec_bytes()),
        r.spec_bytes().len() > 0,
{
    proof {
        reveal_strlit("%PROTO_BASENAME%");
        lemma_ascii_text("%PROTO_BASENAME%");
    }
    "%PROTO_BASENAME%"
}

fn ph_proto_import() -> (r: &'static str)
    ensures
        r.spec_bytes() == "%PROTO_IMPORT%".spec_bytes(),
        ascii_bytes(r.spec_bytes()),
        r.spec_bytes().len() > 0,
{
    proof {
        reveal_strlit("%PROTO_IMPORT%");
        lemma_ascii_text("%PROTO_IMPORT%");
    }
    "%PROTO_IMPORT%"
}

fn ph_go_package() -> (r: &'static str)
    ensures
        r.spec_bytes() == "%GO_PACKAGE%".spec_bytes(),
        ascii_bytes(r.spec_bytes()),
        r.spec_bytes().len() > 0,
{
    proof {
        reveal_strlit("%GO_PACKAGE%");
        lemma_ascii_text("%GO_PACKAGE%");
    }
    "%GO_PACKAGE%"
}

/// The template for `language`.
fn template_for(language: &str) -> (r: Option<&'static str>)
    ensures
        opt_str_view(r) == template_of(language.spec_bytes()),
{
    if str_eq(language, "python") {
        Some(templates::PYTHON)
    } else if str_eq(language, "cpp") {
        Some(templates::CPP)
    } else if str_eq(language, "go") {
        Some(templates::GO)
    } else if str_eq(language, "rust") {
        Some(templates::RUST)
    } else {
        None
    }
}

fn render_exec(template: &str, proto: &ProtoFile, message: &ProtoMessage) -> (r: String)
    ensures
        sbytes(r) == render(template.spec_bytes(), proto@, message@),
{
    let safe = safe_name(message.name.as_str());
    render_with_safe_name(template, proto, message, safe.as_str())
}

/// Renders `template` for `message` of `proto`, with `safe` as the message's
/// identifier name (what the lowercased, dot-free message name gives in
/// [`generate_harness`]).
pub fn render_with_safe_name(template: &str, proto: &ProtoFile, message: &ProtoMessage, safe: &str) -> (r: String)
    ensures
        sbytes(r) == render_with(template.spec_bytes(), proto@, message@, safe.spec_bytes()),
{
    let pkg = package_prefix(proto);
    let py_module = proto_module_py(proto);
    let rust_module = proto_module_rust(proto);
    let stem = file_stem(proto);
    let go_pkg = go_package(proto);
    let t1 = replace_text(template, ph_message_name(), message.name.as_str());
    let t2 = replace_text(t1.as_str(), ph_safe_name(), safe);
    let t3 = replace_text(t2.as_str(), ph_proto_package(), pkg.as_str());
    let t4 = replace_text(t3.as_str(), ph_proto_module(), py_module.as_str());
    let t5 = replace_text(t4.as_str(), ph_proto_module_rust(), rust_module.as_str());
    let t6 = replace_text(t5.as_str(), ph_proto_basename(), stem.as_str());
    let t7 = replace_text(t6.as_str(), ph_proto_import(), "\"google.golang.org/protobuf/proto\"");
    let t8 = replace_text(t7.as_str(), ph_go_package(), go_pkg.as_str());
    t8
}

/// Generate a harness for `message` in `language`.
pub fn generate_harness(proto: &ProtoFile, message: &ProtoMessage, language: &str) -> (r: Result<
    String,
    HarnessError,
>)
    ensures
        match r {
            Ok(code) => harness_text(proto@, message@, language.spec_bytes()) == Some(sbytes(code)),
            Err(e) => harness_text(proto@, message@, language.spec_bytes()) is None
                && e.language() == language.spec_bytes(),
        },
{
    match template_for(language) {
        Some(template) => Ok(render_exec(template, proto, message)),
        None => Err(HarnessError::UnsupportedLanguage(own(language))),
    }
}


/// A language's generated harnesses: `(message_name, code)` per message.
pub type LangHarnesses = (&'static str, Vec<(String, String)>);

/// The languages asked for: the given ones, or all of them.
pub open spec fn requested(languages: Option<&[&str]>) -> Seq<Seq<u8>> {
    match languages {
        Some(ls) => strs_view(ls@),
        None => language_list(),
    }
}

/// The first language in `ls` that has no template.
pub open spec fn first_unsupported(ls: Seq<Seq<u8>>) -> Option<Seq<u8>>
    decreases ls.len(),
{
    if ls.len() == 0 {
        None
    } else if !language_list().contains(ls[0]) {
        Some(ls[0])
    } else {
        first_unsupported(ls.drop_first())
    }
}

/// `(message name, harness)` for every message of the file, nested ones
/// included, in depth-first order, in `lang`.
pub open spec fn harnesses_for(f: FileView, lang: Seq<u8>) -> Seq<(Seq<u8>, Seq<u8>)> {
    Seq::new(
        flatten(f.messages).len(),
        |j: int| (flatten(f.messages)[j].name, render(template_of(lang)->0, f, flatten(f.messages)[j])),
    )
}

/// The harnesses of every message for each language of `langs`.
pub open spec fn all_harnesses(f: FileView, langs: Seq<Seq<u8>>) -> Seq<
    (Seq<u8>, Seq<(Seq<u8>, Seq<u8>)>),
> {
    Seq::new(langs.len(), |i: int| (langs[i], harnesses_for(f, langs[i])))
}

/// The view of generated harnesses.
pub open spec fn lang_harnesses_view(v: Seq<LangHarnesses>) -> Seq<
    (Seq<u8>, Seq<(Seq<u8>, Seq<u8>)>),
> {
    v.map_values(|x: LangHarnesses| (x.0.spec_bytes(), pairs_view(x.1@)))
}

/// The template of a language of the list.
proof fn lemma_listed_has_template(l: Seq<u8>)
    requires
        language_list().contains(l),
    ensures
        template_of(l) is Some,
{
    let k = choose|k: int| 0 <= k < language_list().len() && language_list()[k] == l;
    assert(k == 0 || k == 1 || k == 2 || k == 3);
}

/// The language of the list with the text of `lang`.
fn canonical_language(lang: &str) -> (r: Option<&'static str>)
    ensures
        match r {
            Some(c) => c.spec_bytes() == lang.spec_bytes() && language_list().contains(lang.spec_bytes()),
            None => !language_list().contains(lang.spec_bytes()),
        },
{
    let all = languages();
    let mut i: usize = 0;
    while i < all.len()
        invariant
            i <= all.len(),
            strs_view(all@) == language_list(),
            forall|j: int| 0 <= j < i ==> language_list()[j] != lang.spec_bytes(),
        decreases all.len() - i,
    {
        assert(language_list()[i as int] == all@[i as int].spec_bytes());
        if str_eq(all[i], lang) {
            assert(language_list()[i as int] == lang.spec_bytes());
            return Some(all[i]);
        }
        i = i + 1;
    }
    None
}

/// The harness of every message of the file, nested ones included, in `lang`.
fn harnesses_in(proto: &ProtoFile, lang: &str) -> (r: Vec<(String, String)>)
    requires
        template_of(lang.spec_bytes()) is Some,
    ensures
        pairs_view(r@) == harnesses_for(proto@, lang.spec_bytes()),
{
    let all = proto.all_messages();
    let ghost ms = flatten(proto@.messages);
    let ghost want = harnesses_for(proto@, lang.spec_bytes());
    let mut harnesses: Vec<(String, String)> = Vec::new();
    let mut j: usize = 0;
    while j < all.len()
        invariant
            j <= all.len(),
            ms == refs_view(all@),
            ms == flatten(proto@.messages),
            template_of(lang.spec_bytes()) is Some,
            want == harnesses_for(proto@, lang.spec_bytes()),
            pairs_view(harnesses@) == want.take(j as int),
        decreases all.len() - j,
    {
        let msg = all[j];
        assert(ms[j as int] == msg@);
        let code = match generate_harness(proto, msg, lang) {
            Ok(c) => c,
            Err(e) => {
                assert(false);
                return Vec::new();
            },
        };
        assert(want[j as int] == (msg@.name, sbytes(code)));
        let ghost before = harnesses@;
        harnesses.push((msg.name.clone(), code));
        assert(pairs_view(harnesses@) =~= pairs_view(before).push((msg@.name, sbytes(code))));
        assert(want.take(j + 1) =~= want.take(j as int).push(want[j as int]));
        j = j + 1;
    }
    assert(want.take(j as int) =~= want);
    harnesses
}

/// Generate harnesses for every message, nested ones included, in the given
/// languages (default: all), or report the first language that has no
/// template.
pub fn generate_all(proto: &ProtoFile, languages_asked: Option<&[&str]>) -> (r: Result<
    Vec<LangHarnesses>,
    HarnessError,
>)
    ensures
        match r {
            Ok(v) => first_unsupported(requested(languages_asked)) is None && lang_harnesses_view(v@)
                == all_harnesses(proto@, requested(languages_asked)),
            Err(e) => first_unsupported(requested(languages_asked)) == Some(e.language()),
        },
{
    let default_langs = languages();
    let langs: &[&str] = match languages_asked {
        Some(ls) => ls,
        None => default_langs.as_slice(),
    };
    let ghost req = requested(languages_asked);
    assert(strs_view(langs@) == req);
    let ghost ms = proto@.messages;
    let mut result: Vec<LangHarnesses> = Vec::new();
    let mut i: usize = 0;
    while i < langs.len()
        invariant
            i <= langs.len(),
            strs_view(langs@) == req,
            req == requested(languages_asked),
            ms == proto@.messages,
            ms == messages_view(proto.messages@),
            forall|j: int| 0 <= j < i ==> language_list().contains(#[trigger] req[j]),
            lang_harnesses_view(result@) == all_harnesses(proto@, req).take(i as int),
        decreases langs.len() - i,
    {
        let lang = langs[i];
        assert(req[i as int] == lang.spec_bytes());
        let canonical = match canonical_language(lang) {
            Some(c) => c,
            None => {
                proof {
                    lemma_first_unsupported(req, i as int);
                }
                let e = HarnessError::UnsupportedLanguage(own(lang));
                assert(e.language() == req[i as int]);
                return Err(e);
            },
        };
        proof {
            lemma_listed_has_template(lang.spec_bytes());
        }
        let harnesses = harnesses_in(proto, canonical);
        let ghost before = result@;
        result.push((canonical, harnesses));
        assert(lang_harnesses_view(result@) =~= lang_harnesses_view(before).push(
            (canonical.spec_bytes(), pairs_view(harnesses@)),
        ));
        assert(all_harnesses(proto@, req).take(i + 1) =~= all_harnesses(proto@, req).take(
            i as int,
        ).push((req[i as int], harnesses_for(proto@, req[i as int]))));
        i = i + 1;
    }
    proof {
        lemma_all_supported(req);
    }
    assert(all_harnesses(proto@, req).take(i as int) =~= all_harnesses(proto@, req));
    Ok(result)
}

/// The first unsupported language is the first that is not listed.
proof fn lemma_first_unsupported(ls: Seq<Seq<u8>>, i: int)
    requires
        0 <= i < ls.len(),
        forall|j: int| 0 <= j < i ==> language_list().contains(#[trigger] ls[j]),
        !language_list().contains(ls[i]),
    ensures
        first_unsupported(ls) == Some(ls[i]),
    decreases i,
{
    if i > 0 {
        assert(language_list().contains(ls[0]));
        lemma_first_unsupported(ls.drop_first(), i - 1);
        assert forall|j: int| 0 <= j < i - 1 implies language_list().contains(
            #[trigger] ls.drop_first()[j],
        ) by {
            assert(ls.drop_first()[j] == ls[j + 1]);
        }
    }
}

/// With every language listed, none is unsupported.
proof fn lemma_all_supported(ls: Seq<Seq<u8>>)
    requires
        forall|j: int| 0 <= j < ls.len() ==> language_list().contains(#[trigger] ls[j]),
    ensures
        first_unsupported(ls) is None,
    decreases ls.len(),
{
    if ls.len() > 0 {
        assert(language_list().contains(ls[0]));
        assert forall|j: int| 0 <= j < ls.len() - 1 implies language_list().contains(
            #[trigger] ls.drop_first()[j],
        ) by {
            assert(ls.drop_first()[j] == ls[j + 1]);
        }
        lemma_all_supported(ls.drop_first());
    }
}


/// No language of `ls` lacks a template exactly when each has one.
proof fn lemma_supported_iff(ls: Seq<Seq<u8>>)
    ensures
        first_unsupported(ls) is None <==> forall|i: int|
            0 <= i < ls.len() ==> language_list().contains(#[trigger] ls[i]),
    decreases ls.len(),
{
    if ls.len() > 0 {
        lemma_supported_iff(ls.drop_first());
        if first_unsupported(ls) is None {
            assert forall|i: int| 0 <= i < ls.len() implies language_list().contains(#[trigger] ls[i]) by {
                if i > 0 {
                    assert(ls[i] == ls.drop_first()[i - 1]);
                }
            }
        }
        if forall|i: int| 0 <= i < ls.len() ==> language_list().contains(#[trigger] ls[i]) {
            assert(language_list().contains(ls[0]));
            assert forall|i: int| 0 <= i < ls.drop_first().len() implies language_list().contains(
                #[trigger] ls.drop_first()[i],
            ) by {
                assert(ls.drop_first()[i] == ls[i + 1]);
            }
        }
    }
}

/// Generating for several languages succeeds exactly when each of them has
/// a template, and then gives, for each language in the order asked and
/// each message of the file in depth-first order (that of
/// `ProtoFile::all_messages`), the message's name and the harness that
/// generating for that message alone gives.
pub proof fn law_generate_all_per_message(f: FileView, langs: Seq<Seq<u8>>)
    ensures
        first_unsupported(langs) is None <==> forall|i: int|
            0 <= i < langs.len() ==> template_of(#[trigger] langs[i]) is Some,
        first_unsupported(langs) is None ==> forall|i: int, k: int|
            0 <= i < langs.len() && 0 <= k < flatten(f.messages).len() ==> (#[trigger] all_harnesses(
                f,
                langs,
            )[i].1[k]) == (flatten(f.messages)[k].name, harness_text(f, flatten(f.messages)[k], langs[i])->0),
        all_harnesses(f, langs).len() == langs.len(),
        forall|i: int|
            0 <= i < langs.len() ==> (#[trigger] all_harnesses(f, langs)[i]).0 == langs[i]
                && all_harnesses(f, langs)[i].1.len() == flatten(f.messages).len(),
{
    lemma_supported_iff(langs);
    assert forall|i: int| 0 <= i < langs.len() implies (template_of(#[trigger] langs[i]) is Some
        <==> language_list().contains(langs[i])) by {
        law_languages_agree(langs[i]);
    }
}

/// The file name of the harness of message `name` in `lang`:
/// `fuzz_<lowercase name><extension>`.
pub open spec fn harness_file_name_of(name: Seq<char>, lang: Seq<u8>) -> Seq<u8> {
    "fuzz_".spec_bytes() + encode_utf8(lowercase(name)) + match extension_of(lang) {
        Some(e) => e,
        None => Seq::empty(),
    }
}

/// The file name under which the harness of `message_name` in `language`
/// is written.
pub fn harness_file_name(message_name: &str, language: &str) -> (r: String)
    ensures
        sbytes(r) == harness_file_name_of(message_name@, language.spec_bytes()),
{
    let lower = to_lowercase_text(message_name);
    let mut r = String::new();
    push_str(&mut r, "fuzz_");
    push_string(&mut r, &lower);
    match file_extension(language) {
        Some(e) => push_str(&mut r, e),
        None => {},
    }
    assert(sbytes(r) =~= harness_file_name_of(message_name@, language.spec_bytes()));
    r
}


/// A language has a file extension exactly when it has a template, exactly
/// when it is one of the harness languages.
pub proof fn law_languages_agree(l: Seq<u8>)
    ensures
        extension_of(l) is Some <==> template_of(l) is Some,
        template_of(l) is Some <==> language_list().contains(l),
{
    if template_of(l) is Some {
        if l == "python".spec_bytes() {
            assert(language_list()[0] == l);
        } else if l == "cpp".spec_bytes() {
            assert(language_list()[1] == l);
        } else if l == "go".spec_bytes() {
            assert(language_list()[2] == l);
        } else {
            assert(language_list()[3] == l);
        }
    }
    if language_list().contains(l) {
        lemma_listed_has_template(l);
    }
}

} // verus!
