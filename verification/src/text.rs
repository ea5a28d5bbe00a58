//! Byte-level text utilities shared by the parser, the scanner and the
//! harness generator.
//!
//! All textual data is modelled by its UTF-8 bytes: a `&str` by
//! `spec_bytes()`, a `String` by [`sbytes`]. Positions are byte offsets.
use vstd::prelude::*;
use vstd::utf8::*;
use vstd::string::*;

verus! {

broadcast use vstd::seq::group_seq_axioms, vstd::slice::group_slice_axioms;

/// The UTF-8 bytes of a `String`.
pub open spec fn sbytes(s: String) -> Seq<u8> {
    encode_utf8(s@)
}

/// `i` is a position at which a valid UTF-8 byte sequence may be cut.
pub open spec fn at_boundary(b: Seq<u8>, i: int) -> bool {
    &&& 0 <= i <= b.len()
    &&& (i < b.len() ==> !is_continuation_byte(b[i]))
}

/// Encoding distributes over concatenation.
pub proof fn lemma_encode_concat(a: Seq<char>, b: Seq<char>)
    ensures
        encode_utf8(a + b) == encode_utf8(a) + encode_utf8(b),
    decreases a.len(),
{
    if a.len() == 0 {
        assert(a + b =~= b);
    } else {
        assert((a + b).drop_first() =~= a.drop_first() + b);
        lemma_encode_concat(a.drop_first(), b);
        assert((a + b)[0] == a[0]);
        assert(encode_utf8(a + b) =~= encode_scalar(a[0] as u32) + encode_utf8(a.drop_first() + b));
    }
}

/// Two character sequences with the same encoding are equal.
pub proof fn lemma_encode_injective(a: Seq<char>, b: Seq<char>)
    requires
        encode_utf8(a) == encode_utf8(b),
    ensures
        a == b,
{
    encode_utf8_decode_utf8(a);
    encode_utf8_decode_utf8(b);
}

/// A boundary in our sense is a character boundary of the encoding.
pub proof fn lemma_boundary_is_char_boundary(b: Seq<u8>, i: int)
    requires
        valid_utf8(b),
        at_boundary(b, i),
    ensures
        is_char_boundary(b, i),
{
    if i == b.len() {
        is_char_boundary_start_end_of_seq(b);
    } else {
        is_char_boundary_iff_not_is_continuation_byte(b, i);
    }
}

/// Skipping one whole encoded character from a boundary reaches a boundary.
pub proof fn lemma_next_boundary(b: Seq<u8>, i: int)
    requires
        valid_utf8(b),
        at_boundary(b, i),
        i < b.len(),
    ensures
        i + length_of_first_scalar(b.subrange(i, b.len() as int)) <= b.len(),
        at_boundary(b, i + length_of_first_scalar(b.subrange(i, b.len() as int))),
        is_leading_byte_width_1(b[i]) ==> length_of_first_scalar(b.subrange(i, b.len() as int)) == 1,
        is_leading_byte_width_2(b[i]) ==> length_of_first_scalar(b.subrange(i, b.len() as int)) == 2,
        is_leading_byte_width_3(b[i]) ==> length_of_first_scalar(b.subrange(i, b.len() as int)) == 3,
{
    lemma_boundary_is_char_boundary(b, i);
    valid_utf8_split(b, i);
    let s = b.subrange(i, b.len() as int);
    assert(valid_utf8(s));
    assert(s[0] == b[i]);
    reveal_with_fuel(valid_utf8, 2);
    let l = length_of_first_scalar(s);
    let p = pop_first_scalar(s);
    assert(valid_utf8(p));
    if p.len() > 0 {
        assert(valid_first_scalar(p));
        assert(p[0] == b[i + l]);
    }
}

/// The byte after an ASCII byte is a boundary.
pub proof fn lemma_after_ascii(b: Seq<u8>, i: int)
    requires
        valid_utf8(b),
        0 <= i < b.len(),
        b[i] < 0x80,
    ensures
        at_boundary(b, i + 1),
{
    lemma_next_boundary(b, i);
}

/// The substring `s[a..b]`, cut at two boundaries.
pub fn slice_str<'a>(s: &'a str, a: usize, b: usize) -> (r: &'a str)
    requires
        a <= b,
        at_boundary(s.spec_bytes(), a as int),
        at_boundary(s.spec_bytes(), b as int),
    ensures
        r.spec_bytes() == s.spec_bytes().subrange(a as int, b as int),
{
    let ghost sb = s.spec_bytes();
    proof {
        encode_utf8_valid_utf8(s@);
        lemma_boundary_is_char_boundary(sb, b as int);
    }
    let (head, _) = s.split_at(b);
    let ghost hb = head.spec_bytes();
    proof {
        assert(hb =~= sb.subrange(0, b as int));
        valid_utf8_split(sb, b as int);
        assert(at_boundary(hb, a as int));
        lemma_boundary_is_char_boundary(hb, a as int);
    }
    let (_, tail) = head.split_at(a);
    assert(tail.spec_bytes() =~= sb.subrange(a as int, b as int));
    tail
}

/// An owned copy of a string slice.
pub fn own(s: &str) -> (r: String)
    ensures
        sbytes(r) == s.spec_bytes(),
{
    s.to_owned()
}


pub const TAB: u8 = 9;
pub const NEWLINE: u8 = 10;
pub const SPACE: u8 = 32;
pub const QUOTE: u8 = 34;
pub const PERCENT: u8 = 37;
pub const DOT: u8 = 46;
pub const SLASH: u8 = 47;
pub const DIGIT_ZERO: u8 = 48;
pub const DIGIT_NINE: u8 = 57;
pub const SEMICOLON: u8 = 59;
pub const LESS: u8 = 60;
pub const EQUALS: u8 = 61;
pub const GREATER: u8 = 62;
pub const UNDERSCORE: u8 = 95;
pub const LBRACE: u8 = 123;
pub const RBRACE: u8 = 125;

/// `pat` occurs in `b` at position `i`.
pub open spec fn has_at(b: Seq<u8>, i: int, pat: Seq<u8>) -> bool {
    &&& 0 <= i
    &&& i + pat.len() <= b.len()
    &&& b.subrange(i, i + pat.len()) == pat
}

/// The first position at or after `i` that holds `c`.
pub open spec fn find_from(b: Seq<u8>, i: int, c: u8) -> Option<int>
    decreases b.len() - i,
{
    if i < 0 || i >= b.len() {
        None
    } else if b[i] == c {
        Some(i)
    } else {
        find_from(b, i + 1, c)
    }
}

/// Width of the UTF-8 encoding of a Unicode `White_Space` character that
/// starts at `i`, or 0 when none starts there. The characters are U+0009 to
/// U+000D, U+0020, U+0085, U+00A0, U+1680, U+2000 to U+200A, U+2028, U+2029,
/// U+202F, U+205F and U+3000.
pub open spec fn uws_width(b: Seq<u8>, i: int) -> int {
    if !(0 <= i < b.len()) {
        0
    } else if (9 <= b[i] <= 13) || b[i] == 32 {
        1
    } else if b[i] == 0xc2 && i + 1 < b.len() && (b[i + 1] == 0x85 || b[i + 1] == 0xa0) {
        2
    } else if i + 2 < b.len() && ((b[i] == 0xe1 && b[i + 1] == 0x9a && b[i + 2] == 0x80) || (
    b[i] == 0xe2 && b[i + 1] == 0x80 && ((0x80 <= b[i + 2] <= 0x8a) || b[i + 2] == 0xa8
        || b[i + 2] == 0xa9 || b[i + 2] == 0xaf)) || (b[i] == 0xe2 && b[i + 1] == 0x81 && b[i
        + 2] == 0x9f) || (b[i] == 0xe3 && b[i + 1] == 0x80 && b[i + 2] == 0x80)) {
        3
    } else {
        0
    }
}

/// The position after the run of Unicode whitespace that starts at `i`
/// (what `str::trim_start` removes).
pub open spec fn uws_end(b: Seq<u8>, i: int) -> int
    decreases b.len() - i,
{
    if uws_width(b, i) > 0 {
        uws_end(b, i + uws_width(b, i))
    } else {
        i
    }
}

/// Width of a whitespace character that ends at `hi` and starts at or after `lo`.
pub open spec fn trail_width(b: Seq<u8>, lo: int, hi: int) -> int {
    if hi - 1 >= lo && uws_width(b, hi - 1) == 1 {
        1
    } else if hi - 2 >= lo && uws_width(b, hi - 2) == 2 {
        2
    } else if hi - 3 >= lo && uws_width(b, hi - 3) == 3 {
        3
    } else {
        0
    }
}

/// The end of `b[lo..hi]` once trailing Unicode whitespace is removed (what
/// `str::trim_end` keeps).
pub open spec fn trim_back(b: Seq<u8>, lo: int, hi: int) -> int
    decreases hi - lo,
{
    if hi > lo && trail_width(b, lo, hi) > 0 {
        trim_back(b, lo, hi - trail_width(b, lo, hi))
    } else {
        hi
    }
}

/// Whether `pat` occurs in `b` at `i`.
pub fn bytes_at(b: &[u8], i: usize, pat: &[u8]) -> (r: bool)
    ensures
        r == has_at(b@, i as int, pat@),
{
    if i > b.len() || pat.len() > b.len() - i {
        return false;
    }
    let mut k: usize = 0;
    while k < pat.len()
        invariant
            i + pat.len() <= b.len(),
            k <= pat.len(),
            forall|j: int| 0 <= j < k ==> b@[i + j] == pat@[j],
        decreases pat.len() - k,
    {
        if b[i + k] != pat[k] {
            assert(b@.subrange(i as int, i + pat.len())[k as int] != pat@[k as int]);
            return false;
        }
        k = k + 1;
    }
    assert(b@.subrange(i as int, i + pat.len()) =~= pat@);
    true
}

/// The first position at or after `i` that holds `c`.
pub fn find_byte(b: &[u8], i: usize, c: u8) -> (r: Option<usize>)
    ensures
        match find_from(b@, i as int, c) {
            Some(k) => r == Some(k as usize),
            None => r is None,
        },
{
    let mut k = i;
    while k < b.len()
        invariant
            i <= k,
            find_from(b@, i as int, c) == find_from(b@, k as int, c),
        decreases b.len() - k,
    {
        if b[k] == c {
            return Some(k);
        }
        k = k + 1;
    }
    None
}

/// Facts about a position found by [`find_from`].
pub proof fn lemma_find_from(b: Seq<u8>, i: int, c: u8)
    requires
        0 <= i,
    ensures
        find_from(b, i, c) matches Some(k) ==> i <= k < b.len() && b[k] == c && forall|j: int|
            i <= j < k ==> b[j] != c,
        find_from(b, i, c) is None ==> forall|j: int| i <= j < b.len() ==> b[j] != c,
    decreases b.len() - i,
{
    if 0 <= i < b.len() && b[i] != c {
        lemma_find_from(b, i + 1, c);
    }
}

fn uws_width_exec(b: &[u8], i: usize) -> (r: usize)
    requires
        i < b.len(),
    ensures
        r == uws_width(b@, i as int),
{
    let c = b[i];
    if (9 <= c && c <= 13) || c == 32 {
        1
    } else if c == 0xc2 && b.len() - i > 1 && (b[i + 1] == 0x85 || b[i + 1] == 0xa0) {
        2
    } else if b.len() - i > 2 && ((c == 0xe1 && b[i + 1] == 0x9a && b[i + 2] == 0x80) || (c
        == 0xe2 && b[i + 1] == 0x80 && ((0x80 <= b[i + 2] && b[i + 2] <= 0x8a) || b[i + 2]
        == 0xa8 || b[i + 2] == 0xa9 || b[i + 2] == 0xaf)) || (c == 0xe2 && b[i + 1] == 0x81
        && b[i + 2] == 0x9f) || (c == 0xe3 && b[i + 1] == 0x80 && b[i + 2] == 0x80)) {
        3
    } else {
        0
    }
}

/// A whitespace character that starts at a boundary ends at one.
proof fn lemma_uws_step(b: Seq<u8>, i: int)
    requires
        valid_utf8(b),
        at_boundary(b, i),
        uws_width(b, i) > 0,
    ensures
        at_boundary(b, i + uws_width(b, i)),
        i + uws_width(b, i) <= b.len(),
{
    lemma_next_boundary(b, i);
}

/// Skips the run of Unicode whitespace at `i`.
pub fn skip_uws(b: &[u8], i: usize) -> (r: usize)
    requires
        i <= b.len(),
    ensures
        r == uws_end(b@, i as int),
        i <= r <= b.len(),
        valid_utf8(b@) && at_boundary(b@, i as int) ==> at_boundary(b@, r as int),
{
    let mut k = i;
    while k < b.len()
        invariant
            i <= k <= b.len(),
            uws_end(b@, i as int) == uws_end(b@, k as int),
            valid_utf8(b@) && at_boundary(b@, i as int) ==> at_boundary(b@, k as int),
        decreases b.len() - k,
    {
        let w = uws_width_exec(b, k);
        if w == 0 {
            return k;
        }
        proof {
            if valid_utf8(b@) && at_boundary(b@, i as int) {
                lemma_uws_step(b@, k as int);
            }
        }
        k = k + w;
    }
    k
}

/// Drops trailing Unicode whitespace from `b[lo..hi]`, returning the new end.
pub fn trim_back_exec(b: &[u8], lo: usize, hi: usize) -> (r: usize)
    requires
        lo <= hi <= b.len(),
    ensures
        r == trim_back(b@, lo as int, hi as int),
        lo <= r <= hi,
        at_boundary(b@, hi as int) ==> at_boundary(b@, r as int),
{
    let mut h = hi;
    while h > lo
        invariant
            lo <= h <= hi,
            hi <= b.len(),
            trim_back(b@, lo as int, hi as int) == trim_back(b@, lo as int, h as int),
            at_boundary(b@, hi as int) ==> at_boundary(b@, h as int),
        decreases h - lo,
    {
        let w: usize = if uws_width_exec(b, h - 1) == 1 {
            1
        } else if h >= 2 && h - 2 >= lo && uws_width_exec(b, h - 2) == 2 {
            2
        } else if h >= 3 && h - 3 >= lo && uws_width_exec(b, h - 3) == 3 {
            3
        } else {
            0
        };
        assert(w == trail_width(b@, lo as int, h as int));
        if w == 0 {
            return h;
        }
        h = h - w;
    }
    h
}


/// The end of the run of bytes satisfying `p` that starts at `i`.
pub open spec fn run_end(b: Seq<u8>, i: int, p: spec_fn(u8) -> bool) -> int
    decreases b.len() - i,
{
    if 0 <= i < b.len() && p(b[i]) {
        run_end(b, i + 1, p)
    } else {
        i
    }
}

/// A run of bytes that satisfy `p` from `i` up to `j`, where it stops.
pub proof fn lemma_run_end_exact(b: Seq<u8>, i: int, j: int, p: spec_fn(u8) -> bool)
    requires
        0 <= i <= j <= b.len(),
        forall|k: int| i <= k < j ==> p(#[trigger] b[k]),
        j == b.len() || !p(b[j]),
    ensures
        run_end(b, i, p) == j,
    decreases j - i,
{
    if i < j {
        lemma_run_end_exact(b, i + 1, j, p);
    }
}

/// Facts about [`run_end`].
pub proof fn lemma_run_end(b: Seq<u8>, i: int, p: spec_fn(u8) -> bool)
    requires
        0 <= i <= b.len(),
    ensures
        i <= run_end(b, i, p) <= b.len(),
        forall|j: int| i <= j < run_end(b, i, p) ==> p(#[trigger] b[j]),
        run_end(b, i, p) < b.len() ==> !p(b[run_end(b, i, p)]),
    decreases b.len() - i,
{
    if i < b.len() && p(b[i]) {
        lemma_run_end(b, i + 1, p);
    }
}


/// Whether two byte slices are equal.
pub fn bytes_eq(a: &[u8], b: &[u8]) -> (r: bool)
    ensures
        r == (a@ == b@),
{
    if a.len() != b.len() {
        return false;
    }
    let r = bytes_at(a, 0, b);
    assert(r ==> a@ =~= b@) by {
        if r {
            assert(a@.subrange(0, b@.len() as int) =~= a@);
        }
    }
    assert(a@ == b@ ==> a@.subrange(0, b@.len() as int) =~= b@);
    r
}

/// Whether two string slices have the same text.
pub fn str_eq(a: &str, b: &str) -> (r: bool)
    ensures
        r == (a.spec_bytes() == b.spec_bytes()),
{
    bytes_eq(a.as_bytes(), b.as_bytes())
}


/// Appends `t` to `s`.
pub fn push_str(s: &mut String, t: &str)
    ensures
        sbytes(*final(s)) == sbytes(*old(s)) + t.spec_bytes(),
{
    let ghost before = s@;
    s.append(t);
    proof {
        lemma_encode_concat(before, t@);
    }
}

/// Appends the text of `t` to `s`.
pub fn push_string(s: &mut String, t: &String)
    ensures
        sbytes(*final(s)) == sbytes(*old(s)) + sbytes(*t),
{
    push_str(s, t.as_str());
}

/// The decimal digits of `n`, without leading zeros.
pub open spec fn decimal(n: nat) -> Seq<u8>
    decreases n,
{
    if n < 10 {
        seq![(DIGIT_ZERO + n) as u8]
    } else {
        decimal(n / 10) + seq![(DIGIT_ZERO + n % 10) as u8]
    }
}

fn digit_text(d: usize) -> (r: &'static str)
    requires
        d < 10,
    ensures
        r.spec_bytes() == seq![(DIGIT_ZERO + d) as u8],
{
    let r = if d == 0 {
        "0"
    } else if d == 1 {
        "1"
    } else if d == 2 {
        "2"
    } else if d == 3 {
        "3"
    } else if d == 4 {
        "4"
    } else if d == 5 {
        "5"
    } else if d == 6 {
        "6"
    } else if d == 7 {
        "7"
    } else if d == 8 {
        "8"
    } else {
        "9"
    };
    proof {
        reveal_strlit("0");
        reveal_strlit("1");
        reveal_strlit("2");
        reveal_strlit("3");
        reveal_strlit("4");
        reveal_strlit("5");
        reveal_strlit("6");
        reveal_strlit("7");
        reveal_strlit("8");
        reveal_strlit("9");
        is_ascii_chars_encode_utf8(r@);
        assert(r.spec_bytes() =~= seq![(DIGIT_ZERO + d) as u8]);
    }
    r
}

/// Appends the decimal digits of `n` to `s`.
pub fn push_decimal(s: &mut String, n: usize)
    ensures
        sbytes(*final(s)) == sbytes(*old(s)) + decimal(n as nat),
    decreases n,
{
    if n < 10 {
        push_str(s, digit_text(n));
    } else {
        let ghost before = sbytes(*s);
        push_decimal(s, n / 10);
        push_str(s, digit_text(n % 10));
        assert(sbytes(*s) =~= before + decimal(n as nat));
    }
}


/// `s` with every occurrence of a non-empty `pat` replaced by `rep`,
/// scanning left to right without overlap (what `str::replace` returns for
/// a non-empty pattern). An empty `pat` leaves `s` unchanged here; only
/// non-empty placeholders are ever replaced.
pub open spec fn replace_all(s: Seq<u8>, pat: Seq<u8>, rep: Seq<u8>) -> Seq<u8>
    decreases s.len(),
{
    if pat.len() == 0 || s.len() < pat.len() {
        s
    } else if s.take(pat.len() as int) == pat {
        rep + replace_all(s.skip(pat.len() as int), pat, rep)
    } else {
        seq![s[0]] + replace_all(s.drop_first(), pat, rep)
    }
}

/// All bytes are ASCII.
pub open spec fn ascii_bytes(b: Seq<u8>) -> bool {
    forall|j: int| 0 <= j < b.len() ==> #[trigger] b[j] < 0x80
}

/// `s` with every occurrence of the non-empty ASCII text `pat` replaced by
/// `rep`.
pub(crate) fn replace_text(s: &str, pat: &str, rep: &str) -> (r: String)
    requires
        pat.spec_bytes().len() > 0,
        ascii_bytes(pat.spec_bytes()),
    ensures
        sbytes(r) == replace_all(s.spec_bytes(), pat.spec_bytes(), rep.spec_bytes()),
{
    let sb = s.as_bytes();
    let pb = pat.as_bytes();
    let ghost sv = sb@;
    let ghost pv = pb@;
    let ghost rv = rep.spec_bytes();
    proof {
        encode_utf8_valid_utf8(s@);
    }
    let k = pb.len();
    let mut out = String::new();
    let mut seg: usize = 0;
    let mut i: usize = 0;
    assert(sv.skip(0) =~= sv);
    assert(sbytes(out) =~= Seq::<u8>::empty());
    while i < sb.len() && k <= sb.len() - i
        invariant
            sv == sb@,
            sv == s.spec_bytes(),
            valid_utf8(sv),
            pv == pb@,
            pv == pat.spec_bytes(),
            rv == rep.spec_bytes(),
            k == pv.len(),
            k > 0,
            ascii_bytes(pv),
            seg <= i <= sv.len(),
            at_boundary(sv, seg as int),
            sbytes(out) + sv.subrange(seg as int, i as int) + replace_all(sv.skip(i as int), pv, rv)
                == replace_all(sv, pv, rv),
        decreases sv.len() - i,
    {
        let ghost rest = sv.skip(i as int);
        if bytes_at(sb, i, pb) {
            assert(rest.take(k as int) =~= sv.subrange(i as int, i + k));
            assert(rest.skip(k as int) =~= sv.skip(i + k));
            assert(sv[i as int] == pv[0]);
            assert(sv[i + k - 1] == pv[k - 1]);
            proof {
                lemma_after_ascii(sv, i + k - 1);
            }
            let piece = slice_str(s, seg, i);
            let ghost before = sbytes(out);
            push_str(&mut out, piece);
            push_str(&mut out, rep);
            assert(sbytes(out) + sv.subrange((i + k) as int, (i + k) as int) + replace_all(
                sv.skip(i + k),
                pv,
                rv,
            ) =~= before + sv.subrange(seg as int, i as int) + replace_all(rest, pv, rv));
            i = i + k;
            seg = i;
        } else {
            assert(rest.take(k as int) != pv) by {
                if rest.take(k as int) == pv {
                    assert(sv.subrange(i as int, i + k) =~= rest.take(k as int));
                }
            }
            assert(rest.drop_first() =~= sv.skip(i + 1));
            assert(sv.subrange(seg as int, i + 1) =~= sv.subrange(seg as int, i as int).push(sv[i as int]));
            assert(sbytes(out) + sv.subrange(seg as int, i + 1) + replace_all(sv.skip(i + 1), pv, rv)
                =~= sbytes(out) + sv.subrange(seg as int, i as int) + replace_all(rest, pv, rv));
            i = i + 1;
        }
    }
    assert(replace_all(sv.skip(i as int), pv, rv) == sv.skip(i as int));
    let piece = slice_str(s, seg, sb.len());
    let ghost before = sbytes(out);
    push_str(&mut out, piece);
    assert(sbytes(out) =~= before + sv.subrange(seg as int, i as int) + sv.skip(i as int));
    out
}

} // verus!
