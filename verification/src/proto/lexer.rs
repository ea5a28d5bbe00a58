//! Hand-written matchers over a single source line.
//!
//! Each matcher works on the line's UTF-8 bytes and reports byte offsets
//! relative to the line, so the parser can turn them into absolute spans.
//! The spec functions below say what each matcher recognises; the executable
//! matchers are proved to compute exactly that.
use vstd::prelude::*;
use vstd::utf8::*;
use vstd::string::*;
use crate::text::{
    at_boundary, bytes_at, find_byte, find_from, has_at, lemma_after_ascii, lemma_find_from,
    lemma_run_end, lemma_run_end_exact, run_end, skip_uws, slice_str, trim_back, trim_back_exec, uws_end, DIGIT_NINE,
    DIGIT_ZERO, DOT, EQUALS, GREATER, LBRACE, QUOTE, SEMICOLON, SPACE, TAB, UNDERSCORE,
};

verus! {

broadcast use vstd::seq::group_seq_axioms, vstd::slice::group_slice_axioms;

/// ASCII letter or `_`.
pub open spec fn ident_start_byte(c: u8) -> bool {
    c == UNDERSCORE || (65 <= c <= 90) || (97 <= c <= 122)
}

/// ASCII letter, digit or `_`.
pub open spec fn ident_byte(c: u8) -> bool {
    ident_start_byte(c) || (DIGIT_ZERO <= c <= DIGIT_NINE)
}

/// A byte of a dotted type name.
pub open spec fn type_byte(c: u8) -> bool {
    ident_byte(c) || c == DOT
}

/// The first byte of a dotted type name: a letter, `_`, or the `.` of a
/// fully qualified name.
pub open spec fn type_start_byte(c: u8) -> bool {
    ident_start_byte(c) || c == DOT
}

/// Space or tab.
pub open spec fn blank_byte(c: u8) -> bool {
    c == SPACE || c == TAB
}

/// ASCII decimal digit.
pub open spec fn digit_byte(c: u8) -> bool {
    DIGIT_ZERO <= c <= DIGIT_NINE
}

pub open spec fn blank_end(b: Seq<u8>, i: int) -> int {
    run_end(b, i, |c: u8| blank_byte(c))
}

pub open spec fn ident_end(b: Seq<u8>, i: int) -> int {
    run_end(b, i, |c: u8| ident_byte(c))
}

pub open spec fn type_end(b: Seq<u8>, i: int) -> int {
    run_end(b, i, |c: u8| type_byte(c))
}

pub open spec fn digits_end(b: Seq<u8>, i: int) -> int {
    run_end(b, i, |c: u8| digit_byte(c))
}

/// The value of a string of decimal digits.
pub open spec fn digits_value(s: Seq<u8>) -> int
    decreases s.len(),
{
    if s.len() == 0 {
        0
    } else {
        digits_value(s.drop_last()) * 10 + (s.last() - DIGIT_ZERO)
    }
}

/// `syntax`
pub open spec fn kw_syntax() -> Seq<u8> {
    seq![115u8, 121, 110, 116, 97, 120]
}

/// `package`
pub open spec fn kw_package() -> Seq<u8> {
    seq![112u8, 97, 99, 107, 97, 103, 101]
}

/// `import`
pub open spec fn kw_import() -> Seq<u8> {
    seq![105u8, 109, 112, 111, 114, 116]
}

/// `message`
pub open spec fn kw_message() -> Seq<u8> {
    seq![109u8, 101, 115, 115, 97, 103, 101]
}

/// `map<`
pub open spec fn kw_map() -> Seq<u8> {
    seq![109u8, 97, 112, 60]
}

/// `optional`
pub open spec fn kw_optional() -> Seq<u8> {
    seq![111u8, 112, 116, 105, 111, 110, 97, 108]
}

/// `required`
pub open spec fn kw_required() -> Seq<u8> {
    seq![114u8, 101, 113, 117, 105, 114, 101, 100]
}

/// `repeated`
pub open spec fn kw_repeated() -> Seq<u8> {
    seq![114u8, 101, 112, 101, 97, 116, 101, 100]
}

/// `syntax = "<s>"`: the byte range of `<s>`.
pub open spec fn syntax_of(l: Seq<u8>) -> Option<(int, int)> {
    let p0 = uws_end(l, 0);
    let p1 = uws_end(l, p0 + 6);
    let p2 = uws_end(l, p1 + 1);
    if !has_at(l, p0, kw_syntax()) {
        None
    } else if !(p1 < l.len() && l[p1] == EQUALS) {
        None
    } else if !(p2 < l.len() && l[p2] == QUOTE) {
        None
    } else {
        match find_from(l, p2 + 1, QUOTE) {
            Some(q) => Some((p2 + 1, q)),
            None => None,
        }
    }
}

/// `package <p>;`: the byte range of `<p>` with surrounding whitespace
/// removed, when it is not empty.
pub open spec fn package_of(l: Seq<u8>) -> Option<(int, int)> {
    let p0 = uws_end(l, 0);
    let p1 = uws_end(l, p0 + 7);
    if !has_at(l, p0, kw_package()) {
        None
    } else if !(p0 + 7 < l.len() && blank_byte(l[p0 + 7])) {
        None
    } else {
        match find_from(l, p1, SEMICOLON) {
            Some(e) => {
                let hi = trim_back(l, p1, e);
                if hi == p1 {
                    None
                } else {
                    Some((p1, hi))
                }
            },
            None => None,
        }
    }
}

/// `import "<p>"`: the byte range of `<p>`.
pub open spec fn import_of(l: Seq<u8>) -> Option<(int, int)> {
    let p0 = uws_end(l, 0);
    let p1 = uws_end(l, p0 + 6);
    if !has_at(l, p0, kw_import()) {
        None
    } else if !(p0 + 6 < l.len() && blank_byte(l[p0 + 6])) {
        None
    } else if !(p1 < l.len() && l[p1] == QUOTE) {
        None
    } else {
        match find_from(l, p1 + 1, QUOTE) {
            Some(q) => Some((p1 + 1, q)),
            None => None,
        }
    }
}

/// `message Name {`: the byte range of `Name`.
pub open spec fn message_header(l: Seq<u8>) -> Option<(int, int)> {
    let i0 = blank_end(l, 0);
    let i1 = blank_end(l, i0 + 7);
    let ne = ident_end(l, i1);
    let i3 = blank_end(l, ne);
    if !has_at(l, i0, kw_message()) {
        None
    } else if i1 == i0 + 7 {
        None
    } else if !(i1 < l.len() && ident_start_byte(l[i1])) {
        None
    } else if !(i3 < l.len() && l[i3] == LBRACE) {
        None
    } else {
        Some((i1, ne))
    }
}

/// A field declaration found on a line, as byte ranges within the line.
pub struct FieldDecl {
    /// The label (`optional`, `required` or `repeated`), when present.
    pub label: Option<(int, int)>,
    pub ty: (int, int),
    pub name: (int, int),
    pub number: i64,
    /// From the first token through the `;`.
    pub start: int,
    pub end: int,
}

/// One of the three field labels.
pub open spec fn is_label(s: Seq<u8>) -> bool {
    s == kw_optional() || s == kw_required() || s == kw_repeated()
}

/// The end of the type token that starts at `ts`: `map<...>` or a dotted name.
pub open spec fn type_token_end(l: Seq<u8>, ts: int) -> Option<int> {
    if has_at(l, ts, kw_map()) {
        match find_from(l, ts + 4, GREATER) {
            Some(k) => Some(k + 1),
            None => None,
        }
    } else if 0 <= ts < l.len() && type_start_byte(l[ts]) {
        Some(type_end(l, ts))
    } else {
        None
    }
}

/// `[label] Type name = N;` after the type token, which ends at `te`.
pub open spec fn field_rest(l: Seq<u8>, label: Option<(int, int)>, ts: int, te: int, start: int) -> Option<FieldDecl> {
    let w = blank_end(l, te);
    let ne = ident_end(l, w);
    let j = blank_end(l, ne);
    let k = blank_end(l, j + 1);
    let de = digits_end(l, k);
    let m = blank_end(l, de);
    if !(w > te && w < l.len() && ident_start_byte(l[w])) {
        None
    } else if !(j < l.len() && l[j] == EQUALS) {
        None
    } else if !(de > k && digits_value(l.subrange(k, de)) <= i64::MAX) {
        None
    } else if !(m < l.len() && l[m] == SEMICOLON) {
        None
    } else {
        Some(FieldDecl {
            label,
            ty: (ts, te),
            name: (w, ne),
            number: digits_value(l.subrange(k, de)) as i64,
            start,
            end: m + 1,
        })
    }
}

/// A field declaration `[label] Type name = N;`, where `Type` is `map<...>`
/// or a dotted name (`[\w.]+`, so a fully qualified `.pkg.Msg` too) and `N`
/// a decimal number that fits in an `i64`.
pub open spec fn field_decl(l: Seq<u8>) -> Option<FieldDecl> {
    let i0 = blank_end(l, 0);
    let e0 = ident_end(l, i0);
    let labeled = is_label(l.subrange(i0, e0));
    let ts = if labeled {
        blank_end(l, e0)
    } else {
        i0
    };
    if !(i0 < l.len() && type_start_byte(l[i0])) {
        None
    } else if labeled && ts == e0 {
        None
    } else {
        match type_token_end(l, ts) {
            Some(te) => field_rest(
                l,
                if labeled {
                    Some((i0, e0))
                } else {
                    None
                },
                ts,
                te,
                i0,
            ),
            None => None,
        }
    }
}

fn is_ident_start(b: u8) -> (r: bool)
    ensures
        r == ident_start_byte(b),
{
    b == UNDERSCORE || (65 <= b && b <= 90) || (97 <= b && b <= 122)
}

fn is_ident_cont(b: u8) -> (r: bool)
    ensures
        r == ident_byte(b),
{
    is_ident_start(b) || (DIGIT_ZERO <= b && b <= DIGIT_NINE)
}

fn is_type_char(b: u8) -> (r: bool)
    ensures
        r == type_byte(b),
{
    is_ident_cont(b) || b == DOT
}

fn skip_ws(b: &[u8], i: usize) -> (r: usize)
    requires
        i <= b.len(),
    ensures
        r == blank_end(b@, i as int),
{
    let mut k = i;
    while k < b.len() && (b[k] == SPACE || b[k] == TAB)
        invariant
            i <= k <= b.len(),
            blank_end(b@, i as int) == blank_end(b@, k as int),
        decreases b.len() - k,
    {
        k = k + 1;
    }
    k
}

fn skip_ident(b: &[u8], i: usize) -> (r: usize)
    requires
        i <= b.len(),
    ensures
        r == ident_end(b@, i as int),
{
    let mut k = i;
    while k < b.len() && is_ident_cont(b[k])
        invariant
            i <= k <= b.len(),
            ident_end(b@, i as int) == ident_end(b@, k as int),
        decreases b.len() - k,
    {
        k = k + 1;
    }
    k
}

fn skip_type(b: &[u8], i: usize) -> (r: usize)
    requires
        i <= b.len(),
    ensures
        r == type_end(b@, i as int),
{
    let mut k = i;
    while k < b.len() && is_type_char(b[k])
        invariant
            i <= k <= b.len(),
            type_end(b@, i as int) == type_end(b@, k as int),
        decreases b.len() - k,
    {
        k = k + 1;
    }
    k
}

fn skip_digits(b: &[u8], i: usize) -> (r: usize)
    requires
        i <= b.len(),
    ensures
        r == digits_end(b@, i as int),
{
    let mut k = i;
    while k < b.len() && (DIGIT_ZERO <= b[k] && b[k] <= DIGIT_NINE)
        invariant
            i <= k <= b.len(),
            digits_end(b@, i as int) == digits_end(b@, k as int),
        decreases b.len() - k,
    {
        k = k + 1;
    }
    k
}


/// Every byte is a digit.
pub open spec fn all_digits(s: Seq<u8>) -> bool {
    forall|j: int| 0 <= j < s.len() ==> digit_byte(#[trigger] s[j])
}

/// A prefix of a digit string has no larger value, and values are not negative.
pub proof fn lemma_digits_prefix(s: Seq<u8>, n: int)
    requires
        all_digits(s),
        0 <= n <= s.len(),
    ensures
        0 <= digits_value(s.take(n)) <= digits_value(s),
    decreases s.len(),
{
    if s.len() > 0 {
        if n == s.len() {
            assert(s.take(n) =~= s);
            lemma_digits_prefix(s.drop_last(), n - 1);
            assert(s.drop_last().take(n - 1) =~= s.drop_last());
        } else {
            assert(all_digits(s.drop_last()));
            lemma_digits_prefix(s.drop_last(), n);
            assert(s.drop_last().take(n) =~= s.take(n));
            lemma_digits_prefix(s.drop_last(), s.len() - 1);
            assert(s.drop_last().take(s.len() - 1) =~= s.drop_last());
        }
    }
}

/// The value of the digits `b[k..e]`, when it fits in an `i64`.
fn parse_number(b: &[u8], k: usize, e: usize) -> (r: Option<i64>)
    requires
        k <= e <= b.len(),
        all_digits(b@.subrange(k as int, e as int)),
    ensures
        digits_value(b@.subrange(k as int, e as int)) <= i64::MAX ==> r == Some(
            digits_value(b@.subrange(k as int, e as int)) as i64,
        ),
        digits_value(b@.subrange(k as int, e as int)) > i64::MAX ==> r is None,
{
    let ghost s = b@.subrange(k as int, e as int);
    let mut v: i64 = 0;
    let mut j = k;
    assert(s.take(0) =~= Seq::<u8>::empty());
    while j < e
        invariant
            k <= j <= e <= b.len(),
            s == b@.subrange(k as int, e as int),
            all_digits(s),
            v == digits_value(s.take(j - k)),
            0 <= v,
        decreases e - j,
    {
        assert(s[j - k] == b@[j as int]);
        assert(digit_byte(s[j - k]));
        let d = (b[j] - DIGIT_ZERO) as i64;
        assert(s.take(j - k + 1).drop_last() =~= s.take(j - k));
        assert(s.take(j - k + 1).last() == b@[j as int]);
        if v > (i64::MAX - d) / 10 {
            proof {
                assert(v * 10 + d > i64::MAX) by (nonlinear_arith)
                    requires
                        v > (i64::MAX - d) / 10,
                        0 <= d <= 9,
                ;
                lemma_digits_prefix(s, j - k + 1);
            }
            return None;
        }
        assert(v * 10 + d <= i64::MAX) by (nonlinear_arith)
            requires
                v <= (i64::MAX - d) / 10,
                0 <= v,
                0 <= d <= 9,
        ;
        v = v * 10 + d;
        j = j + 1;
    }
    assert(s.take(e - k) =~= s);
    Some(v)
}

pub(crate) fn kw_syntax_bytes() -> (r: &'static [u8])
    ensures
        r@ == kw_syntax(),
{
    let k = "syntax".as_bytes();
    proof {
        reveal_strlit("syntax");
        is_ascii_chars_encode_utf8("syntax"@);
        assert(k@ =~= kw_syntax());
    }
    k
}

pub(crate) fn kw_package_bytes() -> (r: &'static [u8])
    ensures
        r@ == kw_package(),
{
    let k = "package".as_bytes();
    proof {
        reveal_strlit("package");
        is_ascii_chars_encode_utf8("package"@);
        assert(k@ =~= kw_package());
    }
    k
}

pub(crate) fn kw_import_bytes() -> (r: &'static [u8])
    ensures
        r@ == kw_import(),
{
    let k = "import".as_bytes();
    proof {
        reveal_strlit("import");
        is_ascii_chars_encode_utf8("import"@);
        assert(k@ =~= kw_import());
    }
    k
}

pub(crate) fn kw_message_bytes() -> (r: &'static [u8])
    ensures
        r@ == kw_message(),
{
    let k = "message".as_bytes();
    proof {
        reveal_strlit("message");
        is_ascii_chars_encode_utf8("message"@);
        assert(k@ =~= kw_message());
    }
    k
}

pub(crate) fn kw_map_bytes() -> (r: &'static [u8])
    ensures
        r@ == kw_map(),
{
    let k = "map<".as_bytes();
    proof {
        reveal_strlit("map<");
        is_ascii_chars_encode_utf8("map<"@);
        assert(k@ =~= kw_map());
    }
    k
}

pub(crate) fn kw_optional_bytes() -> (r: &'static [u8])
    ensures
        r@ == kw_optional(),
{
    let k = "optional".as_bytes();
    proof {
        reveal_strlit("optional");
        is_ascii_chars_encode_utf8("optional"@);
        assert(k@ =~= kw_optional());
    }
    k
}

pub(crate) fn kw_required_bytes() -> (r: &'static [u8])
    ensures
        r@ == kw_required(),
{
    let k = "required".as_bytes();
    proof {
        reveal_strlit("required");
        is_ascii_chars_encode_utf8("required"@);
        assert(k@ =~= kw_required());
    }
    k
}

pub(crate) fn kw_repeated_bytes() -> (r: &'static [u8])
    ensures
        r@ == kw_repeated(),
{
    let k = "repeated".as_bytes();
    proof {
        reveal_strlit("repeated");
        is_ascii_chars_encode_utf8("repeated"@);
        assert(k@ =~= kw_repeated());
    }
    k
}

/// `syntax = "..."` → the syntax string.
pub fn match_syntax(line: &str) -> (r: Option<&str>)
    ensures
        match syntax_of(line.spec_bytes()) {
            Some((a, e)) => r matches Some(s) && s.spec_bytes() == line.spec_bytes().subrange(a, e),
            None => r is None,
        },
{
    let b = line.as_bytes();
    proof {
        encode_utf8_valid_utf8(line@);
    }
    let p0 = skip_uws(b, 0);
    if !bytes_at(b, p0, kw_syntax_bytes()) {
        return None;
    }
    let p1 = skip_uws(b, p0 + 6);
    if !(p1 < b.len() && b[p1] == EQUALS) {
        return None;
    }
    let p2 = skip_uws(b, p1 + 1);
    if !(p2 < b.len() && b[p2] == QUOTE) {
        return None;
    }
    match find_byte(b, p2 + 1, QUOTE) {
        Some(q) => {
            proof {
                lemma_after_ascii(b@, p2 as int);
                lemma_find_from(b@, p2 + 1, QUOTE);
            }
            Some(slice_str(line, p2 + 1, q))
        },
        None => None,
    }
}

/// `package a.b.c;` → the package path.
pub fn match_package(line: &str) -> (r: Option<&str>)
    ensures
        match package_of(line.spec_bytes()) {
            Some((a, e)) => r matches Some(s) && s.spec_bytes() == line.spec_bytes().subrange(a, e),
            None => r is None,
        },
{
    let b = line.as_bytes();
    proof {
        encode_utf8_valid_utf8(line@);
    }
    let p0 = skip_uws(b, 0);
    if !bytes_at(b, p0, kw_package_bytes()) {
        return None;
    }
    if !(p0 + 7 < b.len() && (b[p0 + 7] == SPACE || b[p0 + 7] == TAB)) {
        return None;
    }
    let p1 = skip_uws(b, p0 + 7);
    match find_byte(b, p1, SEMICOLON) {
        Some(e) => {
            proof {
                lemma_find_from(b@, p1 as int, SEMICOLON);
            }
            let hi = trim_back_exec(b, p1, e);
            if hi == p1 {
                None
            } else {
                Some(slice_str(line, p1, hi))
            }
        },
        None => None,
    }
}

/// `import "path";` → the import path.
pub fn match_import(line: &str) -> (r: Option<&str>)
    ensures
        match import_of(line.spec_bytes()) {
            Some((a, e)) => r matches Some(s) && s.spec_bytes() == line.spec_bytes().subrange(a, e),
            None => r is None,
        },
{
    let b = line.as_bytes();
    proof {
        encode_utf8_valid_utf8(line@);
    }
    let p0 = skip_uws(b, 0);
    if !bytes_at(b, p0, kw_import_bytes()) {
        return None;
    }
    if !(p0 + 6 < b.len() && (b[p0 + 6] == SPACE || b[p0 + 6] == TAB)) {
        return None;
    }
    let p1 = skip_uws(b, p0 + 6);
    if !(p1 < b.len() && b[p1] == QUOTE) {
        return None;
    }
    match find_byte(b, p1 + 1, QUOTE) {
        Some(q) => {
            proof {
                lemma_after_ascii(b@, p1 as int);
                lemma_find_from(b@, p1 + 1, QUOTE);
            }
            Some(slice_str(line, p1 + 1, q))
        },
        None => None,
    }
}

/// Where a message header's name lies.
pub proof fn lemma_message_header(l: Seq<u8>)
    ensures
        message_header(l) matches Some((a, e)) ==> {
            &&& 0 <= a < e <= l.len()
            &&& ident_start_byte(l[a])
            &&& l[e - 1] < 0x80
        },
{
    if let Some((a, e)) = message_header(l) {
        lemma_run_end(l, 0, |c: u8| blank_byte(c));
        let i0 = blank_end(l, 0);
        lemma_run_end(l, i0 + 7, |c: u8| blank_byte(c));
        lemma_run_end(l, a, |c: u8| ident_byte(c));
        assert(ident_byte(l[a]));
    }
}

/// Where a field declaration lies.
pub proof fn lemma_field_decl(l: Seq<u8>)
    ensures
        field_decl(l) matches Some(d) ==> 0 <= d.start < d.end <= l.len() && l[d.end - 1] == SEMICOLON,
{
    if let Some(d) = field_decl(l) {
        lemma_run_end(l, 0, |c: u8| blank_byte(c));
        let i0 = blank_end(l, 0);
        let e0 = ident_end(l, i0);
        lemma_run_end(l, i0, |c: u8| ident_byte(c));
        let ts = if is_label(l.subrange(i0, e0)) { blank_end(l, e0) } else { i0 };
        lemma_run_end(l, e0, |c: u8| blank_byte(c));
        let te = type_token_end(l, ts)->0;
        if has_at(l, ts, kw_map()) {
            lemma_find_from(l, ts + 4, GREATER);
        } else {
            lemma_run_end(l, ts, |c: u8| type_byte(c));
        }
        let w = blank_end(l, te);
        lemma_run_end(l, te, |c: u8| blank_byte(c));
        let ne = ident_end(l, w);
        lemma_run_end(l, w, |c: u8| ident_byte(c));
        let j = blank_end(l, ne);
        lemma_run_end(l, ne, |c: u8| blank_byte(c));
        let k = blank_end(l, j + 1);
        lemma_run_end(l, j + 1, |c: u8| blank_byte(c));
        let de = digits_end(l, k);
        lemma_run_end(l, k, |c: u8| digit_byte(c));
        lemma_run_end(l, de, |c: u8| blank_byte(c));
    }
}

/// `l` starts with `[ \t]*message[ \t]+Name[ \t]*{`, where `Name` (an
/// identifier: a letter or `_`, then letters, digits or `_`) lies at `l[a..e]`.
pub open spec fn header_shape(l: Seq<u8>, a: int, e: int) -> bool {
    exists|i0: int, i3: int| #[trigger] header_parts(l, i0, a, e, i3)
}

/// The parts of a header: blanks up to `i0`, `message` at `i0`, blanks,
/// the name at `l[a..e]`, blanks, and `{` at `i3`.
pub open spec fn header_parts(l: Seq<u8>, i0: int, a: int, e: int, i3: int) -> bool {
    &&& 0 <= i0
    &&& i0 + 7 < a < e <= i3 < l.len()
    &&& forall|k: int| 0 <= k < i0 ==> blank_byte(#[trigger] l[k])
    &&& l.subrange(i0, i0 + 7) == kw_message()
    &&& forall|k: int| i0 + 7 <= k < a ==> blank_byte(#[trigger] l[k])
    &&& ident_start_byte(l[a])
    &&& forall|k: int| a <= k < e ==> ident_byte(#[trigger] l[k])
    &&& forall|k: int| e <= k < i3 ==> blank_byte(#[trigger] l[k])
    &&& l[i3] == LBRACE
}

/// A line is a message header exactly when it has the shape
/// `[ \t]*message[ \t]+Name[ \t]*{` (anything may follow), and then the
/// name's range is that of `Name`, after position 0 and inside the line.
pub proof fn law_message_header_shape(l: Seq<u8>)
    ensures
        message_header(l) matches Some((a, e)) ==> header_shape(l, a, e) && 0 < a < e <= l.len(),
        forall|a: int, e: int| #[trigger] header_shape(l, a, e) ==> message_header(l) == Some((a, e)),
{
    lemma_run_end(l, 0, |c: u8| blank_byte(c));
    let i0 = blank_end(l, 0);
    if let Some((a, e)) = message_header(l) {
        lemma_run_end(l, i0 + 7, |c: u8| blank_byte(c));
        lemma_run_end(l, a, |c: u8| ident_byte(c));
        lemma_run_end(l, e, |c: u8| blank_byte(c));
        let i3 = blank_end(l, e);
        assert(l.subrange(i0, i0 + 7) == kw_message());
        assert(header_parts(l, i0, a, e, i3));
    }
    assert forall|a: int, e: int| #[trigger] header_shape(l, a, e) implies message_header(l) == Some((a, e)) by {
        let (j0, j3) = choose|j0: int, j3: int| header_parts(l, j0, a, e, j3);
        assert(l[j0] == l.subrange(j0, j0 + 7)[0]);
        lemma_run_end_exact(l, 0, j0, |c: u8| blank_byte(c));
        lemma_run_end_exact(l, j0 + 7, a, |c: u8| blank_byte(c));
        if e < j3 {
            assert(blank_byte(l[e]));
        }
        lemma_run_end_exact(l, a, e, |c: u8| ident_byte(c));
        lemma_run_end_exact(l, e, j3, |c: u8| blank_byte(c));
        assert(has_at(l, j0, kw_message()));
    }
}

/// A matched message header, with the name's byte range within the line.
pub struct MessageMatch {
    pub name_start: usize,
    pub name_end: usize,
}

/// `message Name {` → the name's byte range within the line.
pub fn match_message(line: &str) -> (r: Option<MessageMatch>)
    ensures
        match message_header(line.spec_bytes()) {
            Some((a, e)) => r matches Some(m) && m.name_start == a && m.name_end == e,
            None => r is None,
        },
{
    let b = line.as_bytes();
    let i0 = skip_ws(b, 0);
    proof {
        lemma_run_end(b@, 0, |c: u8| blank_byte(c));
    }
    let kw = kw_message_bytes();
    if !bytes_at(b, i0, kw) {
        return None;
    }
    assert(kw@.len() == 7);
    assert(i0 + 7 <= b@.len());
    assert(b@.len() == b.len());
    let i1 = skip_ws(b, i0 + 7);
    if i1 == i0 + 7 {
        return None;
    }
    proof {
        lemma_run_end(b@, i0 + 7, |c: u8| blank_byte(c));
    }
    if !(i1 < b.len() && is_ident_start(b[i1])) {
        return None;
    }
    let ne = skip_ident(b, i1);
    proof {
        lemma_run_end(b@, i1 as int, |c: u8| ident_byte(c));
    }
    let i3 = skip_ws(b, ne);
    proof {
        lemma_run_end(b@, ne as int, |c: u8| blank_byte(c));
    }
    if !(i3 < b.len() && b[i3] == LBRACE) {
        return None;
    }
    Some(MessageMatch { name_start: i1, name_end: ne })
}

/// A matched field declaration; the byte range is relative to the line.
pub struct FieldMatch<'a> {
    pub label: Option<&'a str>,
    pub ty: &'a str,
    pub name: &'a str,
    pub number: i64,
    /// Range covering the whole declaration, first token through `;`.
    pub start: usize,
    pub end: usize,
}

/// `m` holds what `d` describes within the line `l`.
pub open spec fn field_match_is(m: FieldMatch, l: Seq<u8>, d: FieldDecl) -> bool {
    &&& m.ty.spec_bytes() == l.subrange(d.ty.0, d.ty.1)
    &&& m.name.spec_bytes() == l.subrange(d.name.0, d.name.1)
    &&& m.number == d.number
    &&& m.start == d.start
    &&& m.end == d.end
    &&& match d.label {
        Some((a, e)) => m.label matches Some(x) && x.spec_bytes() == l.subrange(a, e),
        None => m.label is None,
    }
}

/// `[label] Type name = N;` → the parsed field.
pub fn match_field(line: &str) -> (r: Option<FieldMatch<'_>>)
    ensures
        match field_decl(line.spec_bytes()) {
            Some(d) => r matches Some(m) && field_match_is(m, line.spec_bytes(), d),
            None => r is None,
        },
{
    let b = line.as_bytes();
    let ghost l = b@;
    proof {
        encode_utf8_valid_utf8(line@);
    }
    let i0 = skip_ws(b, 0);
    proof {
        lemma_run_end(l, 0, |c: u8| blank_byte(c));
    }
    if !(i0 < b.len() && (is_ident_start(b[i0]) || b[i0] == DOT)) {
        return None;
    }
    let e0 = skip_ident(b, i0);
    proof {
        lemma_run_end(l, i0 as int, |c: u8| ident_byte(c));
        if l.subrange(i0 as int, e0 as int) == kw_optional() || l.subrange(i0 as int, e0 as int)
            == kw_required() || l.subrange(i0 as int, e0 as int) == kw_repeated() {
            assert(l.subrange(i0 as int, e0 as int).len() == 8);
        }
    }
    let labeled = e0 - i0 == 8 && (bytes_at(b, i0, kw_optional_bytes()) || bytes_at(
        b,
        i0,
        kw_required_bytes(),
    ) || bytes_at(b, i0, kw_repeated_bytes()));
    assert(labeled == is_label(l.subrange(i0 as int, e0 as int)));
    let ts = if labeled {
        skip_ws(b, e0)
    } else {
        i0
    };
    if labeled && ts == e0 {
        return None;
    }
    proof {
        lemma_run_end(l, e0 as int, |c: u8| blank_byte(c));
    }
    let te: usize;
    if bytes_at(b, ts, kw_map_bytes()) {
        assert(l[ts as int] == l.subrange(ts as int, ts + 4)[0]);
        match find_byte(b, ts + 4, GREATER) {
            Some(k) => {
                proof {
                    lemma_find_from(l, ts + 4, GREATER);
                }
                te = k + 1;
            },
            None => {
                return None;
            },
        }
    } else if ts < b.len() && (is_ident_start(b[ts]) || b[ts] == DOT) {
        te = skip_type(b, ts);
        proof {
            lemma_run_end(l, ts as int, |c: u8| type_byte(c));
        }
    } else {
        return None;
    }
    assert(type_token_end(l, ts as int) == Some(te as int));
    assert(l[te - 1] < 0x80);
    let w = skip_ws(b, te);
    proof {
        lemma_run_end(l, te as int, |c: u8| blank_byte(c));
    }
    if !(w > te && w < b.len() && is_ident_start(b[w])) {
        return None;
    }
    let ne = skip_ident(b, w);
    proof {
        lemma_run_end(l, w as int, |c: u8| ident_byte(c));
    }
    let j = skip_ws(b, ne);
    proof {
        lemma_run_end(l, ne as int, |c: u8| blank_byte(c));
    }
    if !(j < b.len() && b[j] == EQUALS) {
        return None;
    }
    let k = skip_ws(b, j + 1);
    proof {
        lemma_run_end(l, j + 1, |c: u8| blank_byte(c));
    }
    let de = skip_digits(b, k);
    proof {
        lemma_run_end(l, k as int, |c: u8| digit_byte(c));
    }
    if de == k {
        return None;
    }
    assert(all_digits(l.subrange(k as int, de as int)));
    let number = match parse_number(b, k, de) {
        Some(n) => n,
        None => {
            return None;
        },
    };
    let m = skip_ws(b, de);
    proof {
        lemma_run_end(l, de as int, |c: u8| blank_byte(c));
    }
    if !(m < b.len() && b[m] == SEMICOLON) {
        return None;
    }
    proof {
        lemma_after_ascii(l, te - 1);
        lemma_after_ascii(l, ne - 1);
        if labeled {
            lemma_after_ascii(l, e0 - 1);
        }
    }
    let label = if labeled {
        Some(slice_str(line, i0, e0))
    } else {
        None
    };
    let ty = slice_str(line, ts, te);
    let name = slice_str(line, w, ne);
    Some(FieldMatch { label, ty, name, number, start: i0, end: m + 1 })
}

} // verus!
