//! A well-formed single-message source parses back to what was written.
use vstd::prelude::*;
use crate::text::{
    decimal, find_from, has_at, lemma_run_end_exact, run_end, uws_end, uws_width, DIGIT_ZERO, EQUALS, LBRACE, NEWLINE,
    RBRACE, SEMICOLON, SLASH, SPACE,
};
use super::lexer::{
    blank_byte, blank_end, digit_byte, digits_end, digits_value, field_decl, ident_byte, ident_end,
    ident_start_byte, import_of, kw_message, kw_optional, kw_repeated, message_header, package_of,
    syntax_of, type_end,
};
use super::{
    brace_delta, close_and_declare, count_byte, field_of, initial_state, is_blank_or_comment,
    label_is, line_end, nesting_depth_of, open_message, parsed, pop_closed, run, step, tree,
    ParseState,
};

verus! {

broadcast use vstd::seq::group_seq_axioms;

/// `string`
pub open spec fn kw_string() -> Seq<u8> {
    seq![115u8, 116, 114, 105, 110, 103]
}

/// An identifier: a letter or `_`, then letters, digits or `_`.
pub open spec fn is_ident(s: Seq<u8>) -> bool {
    &&& s.len() > 0
    &&& ident_start_byte(s[0])
    &&& forall|j: int| 0 <= j < s.len() ==> ident_byte(#[trigger] s[j])
}

/// `message <name> {`
pub open spec fn header_line(name: Seq<u8>) -> Seq<u8> {
    kw_message() + seq![SPACE] + name + seq![SPACE, LBRACE]
}

/// `    [repeated ]string <field> = <number>;`
pub open spec fn field_line(field: Seq<u8>, number: nat, repeated: bool) -> Seq<u8> {
    seq![SPACE, SPACE, SPACE, SPACE] + (if repeated {
        kw_repeated() + seq![SPACE]
    } else {
        Seq::empty()
    }) + kw_string() + seq![SPACE] + field + seq![SPACE, EQUALS, SPACE] + decimal(number) + seq![
        SEMICOLON,
    ]
}

/// The text `message <name> {\n    [repeated ]string <field> = <number>;\n}\n`.
pub open spec fn single_message_source(name: Seq<u8>, field: Seq<u8>, number: nat, repeated: bool) -> Seq<u8> {
    header_line(name) + seq![NEWLINE] + field_line(field, number, repeated) + seq![NEWLINE] + seq![
        RBRACE,
        NEWLINE,
    ]
}

/// The first `c` at or after `i` is at `j`.
proof fn lemma_find_exact(b: Seq<u8>, i: int, j: int, c: u8)
    requires
        0 <= i <= j < b.len(),
        b[j] == c,
        forall|k: int| i <= k < j ==> #[trigger] b[k] != c,
    ensures
        find_from(b, i, c) == Some(j),
    decreases j - i,
{
    if i < j {
        lemma_find_exact(b, i + 1, j, c);
    }
}

/// A byte that does not occur is counted zero times.
proof fn lemma_count_absent(s: Seq<u8>, c: u8)
    requires
        forall|k: int| 0 <= k < s.len() ==> #[trigger] s[k] != c,
    ensures
        count_byte(s, c) == 0,
    decreases s.len(),
{
    if s.len() > 0 {
        lemma_count_absent(s.drop_last(), c);
    }
}

/// The decimal digits of `n` are a non-empty digit string whose value is `n`.
proof fn lemma_decimal(n: nat)
    ensures
        decimal(n).len() > 0,
        forall|k: int| 0 <= k < decimal(n).len() ==> digit_byte(#[trigger] decimal(n)[k]),
        digits_value(decimal(n)) == n,
    decreases n,
{
    if n >= 10 {
        lemma_decimal(n / 10);
        let s = decimal(n);
        assert(s.drop_last() =~= decimal(n / 10));
        assert(s.last() == DIGIT_ZERO + n % 10);
        assert(digits_value(s) == digits_value(decimal(n / 10)) * 10 + n % 10);
        assert((n / 10) * 10 + n % 10 == n);
    } else {
        let s = decimal(n);
        assert(s.drop_last() =~= Seq::<u8>::empty());
        assert(s.last() == DIGIT_ZERO + n);
        assert(digits_value(s) == digits_value(s.drop_last()) * 10 + (s.last() - DIGIT_ZERO));
    }
}

/// A line whose first byte after whitespace is not `/`, `p` or `i`, and that
/// does not go on with `sy` there, is not blank and holds no `syntax`,
/// `package` or `import` statement.
proof fn lemma_not_statement(l: Seq<u8>, t: int)
    requires
        0 <= t < l.len(),
        uws_end(l, 0) == t,
        l[t] != SLASH,
        l[t] != 112u8,
        l[t] != 105u8,
        l[t] != 115u8 || (t + 1 < l.len() && l[t + 1] != 121u8),
    ensures
        !is_blank_or_comment(l),
        syntax_of(l) is None,
        package_of(l) is None,
        import_of(l) is None,
{
    assert(!has_at(l, t, seq![SLASH, SLASH])) by {
        if has_at(l, t, seq![SLASH, SLASH]) {
            assert(l.subrange(t, t + 2)[0] == l[t]);
        }
    }
    assert(!has_at(l, t, super::lexer::kw_syntax())) by {
        if has_at(l, t, super::lexer::kw_syntax()) {
            assert(l.subrange(t, t + 6)[0] == l[t]);
            assert(l.subrange(t, t + 6)[1] == l[t + 1]);
        }
    }
    assert(!has_at(l, t, super::lexer::kw_package())) by {
        if has_at(l, t, super::lexer::kw_package()) {
            assert(l.subrange(t, t + 7)[0] == l[t]);
        }
    }
    assert(!has_at(l, t, super::lexer::kw_import())) by {
        if has_at(l, t, super::lexer::kw_import()) {
            assert(l.subrange(t, t + 6)[0] == l[t]);
        }
    }
}

/// What the parser reads from the header line.
proof fn lemma_header_line(name: Seq<u8>)
    requires
        is_ident(name),
    ensures
        !is_blank_or_comment(header_line(name)),
        syntax_of(header_line(name)) is None,
        package_of(header_line(name)) is None,
        import_of(header_line(name)) is None,
        brace_delta(header_line(name)) == 1,
        message_header(header_line(name)) == Some((8int, 8 + name.len() as int)),
        header_line(name).subrange(8, 8 + name.len() as int) == name,
        forall|k: int| 0 <= k < header_line(name).len() ==> #[trigger] header_line(name)[k] != NEWLINE,
{
    let l = header_line(name);
    let n = name.len() as int;
    assert(l.len() == 10 + n);
    assert(l[0] == 109u8);
    assert(l[7] == SPACE);
    assert forall|k: int| 0 <= k < n implies #[trigger] l[8 + k] == name[k] by {}
    assert(l[8 + n] == SPACE);
    assert(l[9 + n] == LBRACE);
    assert(uws_width(l, 0) == 0);
    lemma_not_statement(l, 0);
    assert forall|k: int| 0 <= k < l.len() implies #[trigger] l[k] != NEWLINE && (k < 9 + n ==> l[k]
        != LBRACE) && l[k] != RBRACE by {
        if 8 <= k < 8 + n {
            assert(l[k] == name[k - 8]);
            assert(ident_byte(name[k - 8]));
        }
    }
    let x = l.drop_last();
    assert forall|k: int| 0 <= k < x.len() implies #[trigger] x[k] != LBRACE by {
        assert(x[k] == l[k]);
    }
    lemma_count_absent(x, LBRACE);
    lemma_count_absent(l, RBRACE);
    assert(count_byte(l, LBRACE) == 1);
    assert(l.subrange(0, 7) =~= kw_message());
    assert(has_at(l, 0, kw_message()));
    lemma_run_end_exact(l, 0, 0, |c: u8| blank_byte(c));
    lemma_run_end_exact(l, 7, 8, |c: u8| blank_byte(c));
    assert forall|k: int| 8 <= k < 8 + n implies ident_byte(#[trigger] l[k]) by {
        assert(l[k] == name[k - 8]);
    }
    lemma_run_end_exact(l, 8, 8 + n, |c: u8| ident_byte(c));
    lemma_run_end_exact(l, 8 + n, 9 + n, |c: u8| blank_byte(c));
    assert(blank_end(l, 0) == 0);
    assert(blank_end(l, 7) == 8);
    assert(ident_end(l, 8) == 8 + n);
    assert(blank_end(l, 8 + n) == 9 + n);
    assert(l.subrange(8, 8 + n) =~= name);
}

/// Where each part of a field line lies: four spaces, the label (nine bytes
/// when `rep`), `string`, a space, the name `f`, ` = `, the digits `dec`, `;`.
/// `ts` is where `string` starts.
spec fn field_layout(l: Seq<u8>, f: Seq<u8>, dec: Seq<u8>, rep: bool, ts: int) -> bool {
    let w = ts + 7;
    let ne = w + f.len();
    let k0 = ne + 3;
    &&& ts == if rep { 13int } else { 4int }
    &&& l.len() == k0 + dec.len() + 1
    &&& forall|k: int| 0 <= k < 4 ==> #[trigger] l[k] == SPACE
    &&& rep ==> (forall|k: int| 0 <= k < 8 ==> #[trigger] l[4 + k] == kw_repeated()[k]) && l[12] == SPACE
    &&& forall|k: int| 0 <= k < 6 ==> #[trigger] l[ts + k] == kw_string()[k]
    &&& l[ts + 6] == SPACE
    &&& forall|k: int| 0 <= k < f.len() ==> #[trigger] l[w + k] == f[k]
    &&& l[ne] == SPACE
    &&& l[ne + 1] == EQUALS
    &&& l[ne + 2] == SPACE
    &&& forall|k: int| 0 <= k < dec.len() ==> #[trigger] l[k0 + k] == dec[k]
    &&& l[k0 + dec.len()] == SEMICOLON
}

proof fn lemma_field_line_layout(f: Seq<u8>, n: nat, rep: bool)
    ensures
        field_layout(field_line(f, n, rep), f, decimal(n), rep, if rep { 13int } else { 4int }),
{
    let dec = decimal(n);
    let lab: Seq<u8> = if rep {
        kw_repeated() + seq![SPACE]
    } else {
        Seq::empty()
    };
    let r = lab.len() as int;
    let p1 = seq![SPACE, SPACE, SPACE, SPACE] + lab;
    let p2 = p1 + kw_string();
    let p3 = p2 + seq![SPACE];
    let p4 = p3 + f;
    let p5 = p4 + seq![SPACE, EQUALS, SPACE];
    let p6 = p5 + dec;
    let l = p6 + seq![SEMICOLON];
    assert(l =~= field_line(f, n, rep));
    let ts = 4 + r;
    let w = ts + 7;
    let ne = w + f.len();
    let k0 = ne + 3;
    assert forall|k: int| 0 <= k < 4 implies #[trigger] l[k] == SPACE by {
        assert(l[k] == p1[k]);
    }
    if rep {
        assert forall|k: int| 0 <= k < 8 implies #[trigger] l[4 + k] == kw_repeated()[k] by {
            assert(l[4 + k] == p1[4 + k]);
        }
        assert(l[12] == p1[12]);
    }
    assert forall|k: int| 0 <= k < 6 implies #[trigger] l[ts + k] == kw_string()[k] by {
        assert(l[ts + k] == p2[ts + k]);
    }
    assert(l[ts + 6] == p3[ts + 6]);
    assert forall|k: int| 0 <= k < f.len() implies #[trigger] l[w + k] == f[k] by {
        assert(l[w + k] == p4[w + k]);
    }
    assert(l[ne] == p5[ne]);
    assert(l[ne + 1] == p5[ne + 1]);
    assert(l[ne + 2] == p5[ne + 2]);
    assert forall|k: int| 0 <= k < dec.len() implies #[trigger] l[k0 + k] == dec[k] by {
        assert(l[k0 + k] == p6[k0 + k]);
    }
}

/// A field line holds no newline and no brace, and is no statement, header
/// or blank line.
proof fn lemma_field_line_plain(l: Seq<u8>, f: Seq<u8>, dec: Seq<u8>, rep: bool, ts: int)
    requires
        field_layout(l, f, dec, rep, ts),
        is_ident(f),
        forall|k: int| 0 <= k < dec.len() ==> digit_byte(#[trigger] dec[k]),
    ensures
        !is_blank_or_comment(l),
        syntax_of(l) is None,
        package_of(l) is None,
        import_of(l) is None,
        brace_delta(l) == 0,
        message_header(l) is None,
        forall|k: int| 0 <= k < l.len() ==> #[trigger] l[k] != NEWLINE,
{
    let w = ts + 7;
    let ne = w + f.len();
    let k0 = ne + 3;
    assert forall|k: int| 0 <= k < l.len() implies #[trigger] l[k] != NEWLINE && l[k] != LBRACE && l[k]
        != RBRACE by {
        if k < 4 {
        } else if rep && k < 12 {
            assert(l[4 + (k - 4)] == kw_repeated()[k - 4]);
        } else if k < ts {
        } else if k < ts + 6 {
            assert(l[ts + (k - ts)] == kw_string()[k - ts]);
        } else if w <= k < ne {
            assert(l[w + (k - w)] == f[k - w]);
            assert(ident_byte(f[k - w]));
        } else if k0 <= k < k0 + dec.len() {
            assert(l[k0 + (k - k0)] == dec[k - k0]);
            assert(digit_byte(dec[k - k0]));
        }
    }
    lemma_count_absent(l, LBRACE);
    lemma_count_absent(l, RBRACE);
    assert(l[0] == SPACE && l[1] == SPACE && l[2] == SPACE && l[3] == SPACE);
    if rep {
        assert(l[4int + 0] == kw_repeated()[0]);
    } else {
        assert(l[ts + 0] == kw_string()[0]);
        assert(l[ts + 1] == kw_string()[1]);
    }
    assert(l[4] == 114u8 || l[4] == 115u8);
    assert(uws_width(l, 4) == 0);
    assert(uws_end(l, 4) == 4);
    assert(uws_end(l, 3) == 4);
    assert(uws_end(l, 2) == 4);
    assert(uws_end(l, 1) == 4);
    assert(uws_end(l, 0) == 4);
    lemma_not_statement(l, 4);
    lemma_run_end_exact(l, 0, 4, |c: u8| blank_byte(c));
    assert(blank_end(l, 0) == 4);
    assert(!has_at(l, 4, kw_message())) by {
        if has_at(l, 4, kw_message()) {
            assert(l.subrange(4, 11)[0] == l[4]);
        }
    }
}

/// The field declaration on a field line.
#[verifier::spinoff_prover]
#[verifier::rlimit(30)]
proof fn lemma_field_line_decl(l: Seq<u8>, f: Seq<u8>, dec: Seq<u8>, rep: bool, ts: int)
    requires
        field_layout(l, f, dec, rep, ts),
        is_ident(f),
        dec.len() > 0,
        forall|k: int| 0 <= k < dec.len() ==> digit_byte(#[trigger] dec[k]),
        digits_value(dec) <= i64::MAX,
    ensures
        field_decl(l) is Some,
        l.subrange((field_decl(l)->0).name.0, (field_decl(l)->0).name.1) == f,
        l.subrange((field_decl(l)->0).ty.0, (field_decl(l)->0).ty.1) == kw_string(),
        (field_decl(l)->0).number == digits_value(dec),
        label_is(l, (field_decl(l)->0).label, kw_repeated()) == rep,
        !label_is(l, (field_decl(l)->0).label, kw_optional()),
{
    let te = ts + 6;
    let w = ts + 7;
    let ne = w + f.len();
    let j = ne + 1;
    let k0 = ne + 3;
    let de = k0 + dec.len();
    assert(l[0] == SPACE && l[1] == SPACE && l[2] == SPACE && l[3] == SPACE);
    if rep {
        assert(l[4int + 0] == kw_repeated()[0]);
    } else {
        assert(l[ts + 0] == kw_string()[0]);
    }
    lemma_run_end_exact(l, 0, 4, |c: u8| blank_byte(c));
    assert(blank_end(l, 0) == 4);
    if rep {
        assert forall|k: int| 4 <= k < 12 implies ident_byte(#[trigger] l[k]) by {
            assert(l[4 + (k - 4)] == kw_repeated()[k - 4]);
        }
        lemma_run_end_exact(l, 4, 12, |c: u8| ident_byte(c));
        assert forall|k: int| 0 <= k < 8 implies #[trigger] l.subrange(4, 12)[k] == kw_repeated()[k] by {
            assert(l[4 + k] == kw_repeated()[k]);
        }
        assert(l.subrange(4, 12) =~= kw_repeated());
        assert(l[ts + 0] == kw_string()[0]);
        lemma_run_end_exact(l, 12, 13, |c: u8| blank_byte(c));
        assert(l.subrange(4, 12) != kw_optional()) by {
            assert(l.subrange(4, 12)[1] != kw_optional()[1]);
        }
    } else {
        assert forall|k: int| 4 <= k < 10 implies ident_byte(#[trigger] l[k]) by {
            assert(l[ts + (k - ts)] == kw_string()[k - ts]);
        }
        lemma_run_end_exact(l, 4, 10, |c: u8| ident_byte(c));
        assert(l.subrange(4, 10).len() == 6);
    }
    assert(l[ts + 0] == kw_string()[0]);
    assert(l[ts + 1] == kw_string()[1]);
    assert(!has_at(l, ts, super::lexer::kw_map())) by {
        if has_at(l, ts, super::lexer::kw_map()) {
            assert(l.subrange(ts, ts + 4)[1] == l[ts + 1]);
        }
    }
    assert forall|k: int| ts <= k < te implies super::lexer::type_byte(#[trigger] l[k]) by {
        assert(l[ts + (k - ts)] == kw_string()[k - ts]);
    }
    lemma_run_end_exact(l, ts, te, |c: u8| super::lexer::type_byte(c));
    assert(type_end(l, ts) == te);
    assert forall|k: int| 0 <= k < 6 implies #[trigger] l.subrange(ts, te)[k] == kw_string()[k] by {
        assert(l[ts + k] == kw_string()[k]);
    }
    assert(l.subrange(ts, te) =~= kw_string());
    assert(l[w + 0] == f[0]);
    lemma_run_end_exact(l, te, w, |c: u8| blank_byte(c));
    assert forall|k: int| w <= k < ne implies ident_byte(#[trigger] l[k]) by {
        assert(l[w + (k - w)] == f[k - w]);
    }
    lemma_run_end_exact(l, w, ne, |c: u8| ident_byte(c));
    lemma_run_end_exact(l, ne, j, |c: u8| blank_byte(c));
    assert(l[k0 + 0] == dec[0]);
    lemma_run_end_exact(l, j + 1, k0, |c: u8| blank_byte(c));
    assert forall|k: int| k0 <= k < de implies digit_byte(#[trigger] l[k]) by {
        assert(l[k0 + (k - k0)] == dec[k - k0]);
    }
    lemma_run_end_exact(l, k0, de, |c: u8| digit_byte(c));
    lemma_run_end_exact(l, de, de, |c: u8| blank_byte(c));
    assert forall|k: int| 0 <= k < f.len() implies #[trigger] l.subrange(w, ne)[k] == f[k] by {
        assert(l[w + k] == f[k]);
    }
    assert(l.subrange(w, ne) =~= f);
    assert forall|k: int| 0 <= k < dec.len() implies #[trigger] l.subrange(k0, de)[k] == dec[k] by {
        assert(l[k0 + k] == dec[k]);
    }
    assert(l.subrange(k0, de) =~= dec);
    assert(super::lexer::all_digits(dec));
    super::lexer::lemma_digits_prefix(dec, dec.len() as int);
    assert(dec.take(dec.len() as int) =~= dec);
    assert(blank_end(l, te) == w);
    assert(ident_end(l, w) == ne);
    assert(blank_end(l, ne) == j);
    assert(blank_end(l, j + 1) == k0);
    assert(digits_end(l, k0) == de);
    assert(blank_end(l, de) == de);
}

/// What the parser reads from the closing line and from the empty line
/// after the last newline.
proof fn lemma_closing_lines()
    ensures
        !is_blank_or_comment(seq![RBRACE]),
        syntax_of(seq![RBRACE]) is None,
        package_of(seq![RBRACE]) is None,
        import_of(seq![RBRACE]) is None,
        brace_delta(seq![RBRACE]) == -1,
        message_header(seq![RBRACE]) is None,
        field_decl(seq![RBRACE]) is None,
        is_blank_or_comment(Seq::<u8>::empty()),
{
    let l = seq![RBRACE];
    lemma_run_end_exact(l, 0, 0, |c: u8| blank_byte(c));
    assert(uws_width(l, 0) == 0);
    assert(uws_end(l, 0) == 0);
    lemma_not_statement(l, 0);
    assert(l.drop_last() =~= Seq::<u8>::empty());
    assert(l.last() == RBRACE);
    assert(count_byte(Seq::<u8>::empty(), LBRACE) == 0);
    assert(count_byte(Seq::<u8>::empty(), RBRACE) == 0);
    assert(count_byte(l, LBRACE) == 0);
    assert(count_byte(l, RBRACE) == 1);
    assert(uws_end(Seq::<u8>::empty(), 0) == 0);
}

/// Neither the header line nor the field line holds a newline.
proof fn lemma_lines_unbroken(name: Seq<u8>, field: Seq<u8>, number: nat, repeated: bool)
    requires
        is_ident(name),
        is_ident(field),
    ensures
        forall|k: int| 0 <= k < header_line(name).len() ==> #[trigger] header_line(name)[k] != NEWLINE,
        forall|k: int|
            0 <= k < field_line(field, number, repeated).len() ==> #[trigger] field_line(
                field,
                number,
                repeated,
            )[k] != NEWLINE,
{
    lemma_header_line(name);
    lemma_decimal(number);
    let ts: int = if repeated { 13 } else { 4 };
    lemma_field_line_layout(field, number, repeated);
    lemma_field_line_plain(field_line(field, number, repeated), field, decimal(number), repeated, ts);
}

/// Where the lines lie in `l1`, newline, `l2`, newline, `}`, newline.
proof fn lemma_three_lines(src: Seq<u8>, l1: Seq<u8>, l2: Seq<u8>)
    requires
        src == l1 + seq![NEWLINE] + l2 + seq![NEWLINE] + seq![RBRACE, NEWLINE],
        forall|k: int| 0 <= k < l1.len() ==> #[trigger] l1[k] != NEWLINE,
        forall|k: int| 0 <= k < l2.len() ==> #[trigger] l2[k] != NEWLINE,
    ensures
        ({
            let o1 = l1.len() as int;
            let o2 = o1 + 1 + l2.len();
            &&& src.len() == o2 + 3
            &&& src.subrange(0, o1) == l1
            &&& src.subrange(o1 + 1, o2) == l2
            &&& src.subrange(o2 + 1, o2 + 2) == seq![RBRACE]
            &&& src.subrange(o2 + 3, o2 + 3) == Seq::<u8>::empty()
            &&& line_end(src, 0) == o1
            &&& line_end(src, o1 + 1) == o2
            &&& line_end(src, o2 + 1) == o2 + 2
            &&& line_end(src, o2 + 3) == o2 + 3
        }),
{
    let o1 = l1.len() as int;
    let o2 = o1 + 1 + l2.len();
    let len = o2 + 3;
    assert(src.len() == len);
    assert(src.subrange(0, o1) =~= l1);
    assert(src[o1] == NEWLINE);
    assert(src.subrange(o1 + 1, o2) =~= l2);
    assert(src[o2] == NEWLINE);
    assert(src.subrange(o2 + 1, o2 + 2) =~= seq![RBRACE]);
    assert(src[o2 + 1] == RBRACE);
    assert(src[o2 + 2] == NEWLINE);
    assert(src.subrange(len, len) =~= Seq::<u8>::empty());
    assert forall|k: int| 0 <= k < o1 implies #[trigger] src[k] != NEWLINE by {
        assert(src[k] == l1[k]);
    }
    lemma_find_exact(src, 0, o1, NEWLINE);
    assert forall|k: int| o1 + 1 <= k < o2 implies #[trigger] src[k] != NEWLINE by {
        assert(src[k] == l2[k - (o1 + 1)]);
    }
    lemma_find_exact(src, o1 + 1, o2, NEWLINE);
    lemma_find_exact(src, o2 + 1, o2 + 2, NEWLINE);
}

/// The parser runs over the three lines, then over the empty rest.
#[verifier::spinoff_prover]
proof fn lemma_run_lines(src: Seq<u8>, l1: Seq<u8>, l2: Seq<u8>)
    requires
        ({
            let o1 = l1.len() as int;
            let o2 = o1 + 1 + l2.len();
            &&& src.len() == o2 + 3
            &&& src.subrange(0, o1) == l1
            &&& src.subrange(o1 + 1, o2) == l2
            &&& src.subrange(o2 + 1, o2 + 2) == seq![RBRACE]
            &&& src.subrange(o2 + 3, o2 + 3) == Seq::<u8>::empty()
            &&& line_end(src, 0) == o1
            &&& line_end(src, o1 + 1) == o2
            &&& line_end(src, o2 + 1) == o2 + 2
            &&& line_end(src, o2 + 3) == o2 + 3
        }),
    ensures
        run(src, 0, initial_state()) == step(
            step(step(initial_state(), l1, 0), l2, l1.len() + 1int),
            seq![RBRACE],
            l1.len() + l2.len() + 2int,
        ),
{
    let o1 = l1.len() as int;
    let o2 = o1 + 1 + l2.len();
    let len = o2 + 3;
    let s0 = initial_state();
    let s1 = step(s0, l1, 0);
    let s2 = step(s1, l2, o1 + 1);
    let s3 = step(s2, seq![RBRACE], o2 + 1);
    assert(uws_end(Seq::<u8>::empty(), 0) == 0);
    assert(is_blank_or_comment(Seq::<u8>::empty()));
    assert(step(s3, Seq::<u8>::empty(), len) == s3);
    assert(run(src, len, s3) == s3);
    assert(run(src, o2 + 1, s2) == run(src, len, s3));
    assert(run(src, o1 + 1, s1) == run(src, o2 + 1, s2));
    assert(run(src, 0, s0) == run(src, o1 + 1, s1));
}

/// The parser's state after the header, field and closing lines.
proof fn lemma_line_states(name: Seq<u8>, field: Seq<u8>, number: nat, repeated: bool, s: int, t: int)
    requires
        is_ident(name),
        is_ident(field),
        number <= i64::MAX,
    ensures
        ({
            let s3 = step(
                step(step(initial_state(), header_line(name), 0), field_line(field, number, repeated), s),
                seq![RBRACE],
                t,
            );
            &&& s3.roots == seq![0usize]
            &&& s3.arena.len() == 1
            &&& s3.arena[0].name == name
            &&& s3.arena[0].children.len() == 0
            &&& s3.arena[0].fields.len() == 1
            &&& s3.arena[0].fields[0].name == field
            &&& s3.arena[0].fields[0].ty == kw_string()
            &&& s3.arena[0].fields[0].number == number
            &&& s3.arena[0].fields[0].repeated == repeated
            &&& !s3.arena[0].fields[0].optional
        }),
{
    let l1 = header_line(name);
    let l2 = field_line(field, number, repeated);
    let l3 = seq![RBRACE];
    let ts: int = if repeated { 13 } else { 4 };
    lemma_header_line(name);
    lemma_decimal(number);
    lemma_field_line_layout(field, number, repeated);
    lemma_field_line_plain(l2, field, decimal(number), repeated, ts);
    lemma_field_line_decl(l2, field, decimal(number), repeated, ts);
    lemma_closing_lines();
    let s0 = initial_state();
    let s1 = step(s0, l1, 0);
    let s2 = step(s1, l2, s);
    let s3 = step(s2, l3, t);
    assert(s1 == open_message(s0, l1, 0, 8, 8 + name.len() as int, 1));
    assert(s1.stack =~= seq![(0usize, 1int)]);
    assert(s1.roots =~= seq![0usize]);
    assert(s1.arena.len() == 1);
    assert(s1.arena[0].name == name);
    assert(s1.arena[0].fields.len() == 0);
    assert(s1.arena[0].children.len() == 0);
    assert(pop_closed(s1.stack, 1) == s1.stack);
    let d = field_decl(l2)->0;
    assert(s2 == close_and_declare(s1, l2, s, 1));
    assert(s2.arena.len() == 1);
    assert(s2.arena[0].fields =~= seq![field_of(l2, s, d)]);
    assert(s2.arena[0].children.len() == 0);
    assert(s2.arena[0].name == name);
    assert(s2.roots == s1.roots);
    assert(s2.stack == s1.stack);
    assert(s2.stack.drop_last() =~= Seq::<(usize, int)>::empty());
    assert(pop_closed(s2.stack.drop_last(), 0) =~= Seq::<(usize, int)>::empty());
    assert(pop_closed(s2.stack, 0) =~= Seq::<(usize, int)>::empty());
    assert(s3 == close_and_declare(s2, l3, t, 0));
    assert(s3.arena == s2.arena);
    assert(s3.roots == s2.roots);
}

/// A message with one `string` field, written as
/// `message <name> {\n    [repeated ]string <field> = <number>;\n}\n`, parses
/// back to one message with that name and no nested messages, holding one
/// field with that name, type `string`, number and `repeated` flag, not
/// `optional`.
#[verifier::spinoff_prover]
pub proof fn law_single_message_roundtrip(
    name: Seq<u8>,
    field: Seq<u8>,
    number: nat,
    repeated: bool,
    path: Seq<u8>,
)
    requires
        is_ident(name),
        is_ident(field),
        number <= i64::MAX,
    ensures
        parsed(single_message_source(name, field, number, repeated), path).messages.len() == 1,
        parsed(single_message_source(name, field, number, repeated), path).messages[0].name == name,
        parsed(single_message_source(name, field, number, repeated), path).messages[0].nested.len()
            == 0,
        parsed(single_message_source(name, field, number, repeated), path).messages[0].fields.len()
            == 1,
        parsed(single_message_source(name, field, number, repeated), path).messages[0].fields[0].name
            == field,
        parsed(single_message_source(name, field, number, repeated), path).messages[0].fields[0].ty
            == kw_string(),
        parsed(
            single_message_source(name, field, number, repeated),
            path,
        ).messages[0].fields[0].number == number,
        parsed(
            single_message_source(name, field, number, repeated),
            path,
        ).messages[0].fields[0].repeated == repeated,
        !parsed(
            single_message_source(name, field, number, repeated),
            path,
        ).messages[0].fields[0].optional,
{
    let src = single_message_source(name, field, number, repeated);
    let l1 = header_line(name);
    let l2 = field_line(field, number, repeated);
    lemma_lines_unbroken(name, field, number, repeated);
    lemma_three_lines(src, l1, l2);
    let o1 = l1.len() as int;
    let o2 = o1 + 1 + l2.len();
    lemma_line_states(name, field, number, repeated, o1 + 1, o2 + 1);
    lemma_run_lines(src, l1, l2);
    let s3 = step(
        step(step(initial_state(), l1, 0), l2, o1 + 1),
        seq![RBRACE],
        o2 + 1,
    );
    let m = tree(s3.arena, 0);
    assert(m.name == name);
    assert(m.fields == s3.arena[0].fields);
    assert(m.nested.len() == 0);
    assert(parsed(src, path).messages[0] == m);
}

/// The header lines `message <names[k]> {`, each followed by a newline.
pub open spec fn chain_headers(names: Seq<Seq<u8>>) -> Seq<u8>
    decreases names.len(),
{
    if names.len() == 0 {
        Seq::empty()
    } else {
        chain_headers(names.drop_last()) + header_line(names.last()) + seq![NEWLINE]
    }
}

/// `n` lines that hold a single `}`.
pub open spec fn closers(n: nat) -> Seq<u8>
    decreases n,
{
    if n == 0 {
        Seq::empty()
    } else {
        closers((n - 1) as nat) + seq![RBRACE, NEWLINE]
    }
}

/// A linear chain of messages, each declared inside the one before, with
/// every header and every closing brace on a line of its own.
pub open spec fn chain_source(names: Seq<Seq<u8>>) -> Seq<u8> {
    chain_headers(names) + closers(names.len())
}

/// The headers of the first `k` names begin the headers of all of them.
proof fn lemma_headers_prefix(names: Seq<Seq<u8>>, k: int)
    requires
        0 <= k <= names.len(),
    ensures
        chain_headers(names.take(k)).len() <= chain_headers(names).len(),
        chain_headers(names).subrange(0, chain_headers(names.take(k)).len() as int) == chain_headers(
            names.take(k),
        ),
    decreases names.len(),
{
    if k == names.len() {
        assert(names.take(k) =~= names);
    } else {
        let p = names.drop_last();
        assert(p.take(k) =~= names.take(k));
        lemma_headers_prefix(p, k);
        let a = chain_headers(names.take(k));
        let h = chain_headers(names);
        assert(h.subrange(0, a.len() as int) =~= chain_headers(p).subrange(0, a.len() as int));
    }
}

/// The bytes of the closing lines: `}` at even positions, newlines at odd ones.
proof fn lemma_closers(n: nat)
    ensures
        closers(n) == Seq::new(2 * n, |i: int| if i % 2 == 0 { RBRACE } else { NEWLINE }),
    decreases n,
{
    if n > 0 {
        lemma_closers((n - 1) as nat);
        let q = closers((n - 1) as nat);
        assert(closers(n) =~= Seq::new(2 * n, |i: int| if i % 2 == 0 { RBRACE } else { NEWLINE })) by {
            assert(closers(n) == q + seq![RBRACE, NEWLINE]);
        }
    } else {
        assert(closers(n) =~= Seq::new(2 * n, |i: int| if i % 2 == 0 { RBRACE } else { NEWLINE }));
    }
}

/// The parser moves over one line `l` that starts at `p` and ends at a newline.
proof fn lemma_run_line(src: Seq<u8>, p: int, l: Seq<u8>, st: ParseState)
    requires
        0 <= p,
        p + l.len() < src.len(),
        src.subrange(p, p + l.len()) == l,
        src[p + l.len()] == NEWLINE,
        forall|k: int| 0 <= k < l.len() ==> #[trigger] l[k] != NEWLINE,
    ensures
        run(src, p, st) == run(src, p + l.len() + 1, step(st, l, p)),
{
    assert forall|k: int| p <= k < p + l.len() implies #[trigger] src[k] != NEWLINE by {
        assert(src[k] == src.subrange(p, p + l.len())[k - p]);
    }
    lemma_find_exact(src, p, p + l.len(), NEWLINE);
    assert(line_end(src, p) == p + l.len());
}

/// The parser's state after the first `k` headers of a chain of `d`.
spec fn headers_state(st: ParseState, names: Seq<Seq<u8>>, k: int) -> bool {
    &&& st.arena.len() == k
    &&& st.stack.len() == k
    &&& st.depth == k
    &&& st.roots == (if k > 0 { seq![0usize] } else { Seq::<usize>::empty() })
    &&& forall|j: int| 0 <= j < k ==> #[trigger] st.stack[j] == (j as usize, j + 1)
    &&& forall|j: int|
        0 <= j < k ==> (#[trigger] st.arena[j]).nesting_depth == j && st.arena[j].name == names[j]
            && st.arena[j].children == (if j + 1 < k { seq![(j + 1) as usize] } else { Seq::<usize>::empty() })
}

/// A header line opens a message at the depth after the line.
#[verifier::spinoff_prover]
proof fn lemma_header_step_opens(st: ParseState, name: Seq<u8>, p: int)
    requires
        is_ident(name),
    ensures
        step(st, header_line(name), p) == open_message(
            st,
            header_line(name),
            p,
            8,
            8 + name.len() as int,
            st.depth + 1,
        ),
{
    lemma_header_line(name);
}

/// Opening the next message of a chain.
#[verifier::spinoff_prover]
#[verifier::rlimit(40)]
proof fn lemma_open_next(st: ParseState, names: Seq<Seq<u8>>, k: int, l: Seq<u8>, p: int)
    requires
        0 <= k < names.len() <= usize::MAX,
        headers_state(st, names, k),
        l.len() >= 8 + names[k].len(),
        l.subrange(8, 8 + names[k].len() as int) == names[k],
    ensures
        headers_state(open_message(st, l, p, 8, 8 + names[k].len() as int, k + 1), names, k + 1),
{
    let name = names[k];
    let nst = open_message(st, l, p, 8, 8 + name.len() as int, k + 1);
    let pushed = st.stack.push((k as usize, st.depth + 1));
    assert(pushed.last().1 == k + 1);
    assert(pop_closed(pushed, k + 1) == pushed);
    assert(nst.stack == pushed);
    assert(nst.arena.len() == k + 1);
    if k > 0 {
        assert(st.stack.last() == st.stack[k - 1]);
    }
    assert forall|j: int| 0 <= j < k + 1 implies #[trigger] nst.stack[j] == (j as usize, j + 1) by {
        if j < k {
            assert(nst.stack[j] == st.stack[j]);
        }
    }
    assert forall|j: int| 0 <= j < k + 1 implies (#[trigger] nst.arena[j]).nesting_depth == j
        && nst.arena[j].name == names[j] && nst.arena[j].children == (if j + 1 < k + 1 {
        seq![(j + 1) as usize]
    } else {
        Seq::<usize>::empty()
    }) by {
        if j < k - 1 {
            assert(nst.arena[j] == st.arena[j]);
        } else if j == k - 1 {
            assert(nst.arena[j].children == st.arena[j].children.push(k as usize));
            assert(st.arena[j].children.push(k as usize) =~= seq![(j + 1) as usize]);
        }
    }
    if k == 0 {
        assert(nst.roots =~= seq![0usize]);
    }
}

/// After the first `k` header lines of a chain.
proof fn lemma_header_phase(names: Seq<Seq<u8>>, k: int) -> (st: ParseState)
    requires
        1 <= names.len() <= usize::MAX,
        forall|j: int| 0 <= j < names.len() ==> is_ident(#[trigger] names[j]),
        0 <= k <= names.len(),
    ensures
        headers_state(st, names, k),
        run(chain_source(names), 0, initial_state()) == run(
            chain_source(names),
            chain_headers(names.take(k)).len() as int,
            st,
        ),
    decreases k,
{
    let src = chain_source(names);
    if k == 0 {
        assert(names.take(0) =~= Seq::<Seq<u8>>::empty());
        assert(chain_headers(names.take(0)).len() == 0);
        initial_state()
    } else {
        let st = lemma_header_phase(names, k - 1);
        let a = chain_headers(names.take(k - 1));
        let l = header_line(names[k - 1]);
        let p = a.len() as int;
        assert(names.take(k).drop_last() =~= names.take(k - 1));
        assert(chain_headers(names.take(k)) == a + l + seq![NEWLINE]);
        lemma_headers_prefix(names, k);
        lemma_header_line(names[k - 1]);
        let pre = chain_headers(names.take(k));
        assert(src.subrange(0, pre.len() as int) =~= chain_headers(names).subrange(0, pre.len() as int));
        assert(src.subrange(p, p + l.len()) =~= pre.subrange(p, p + l.len()));
        assert(pre.subrange(p, p + l.len()) =~= l);
        assert(src[p + l.len()] == pre[p + l.len()]);
        lemma_run_line(src, p, l, st);
        lemma_header_step_opens(st, names[k - 1], p);
        lemma_open_next(st, names, k - 1, l, p);
        step(st, l, p)
    }
}

/// The state after `m` closing lines of a chain of `d`, given the state
/// `s` after all the headers.
spec fn closed_state(st: ParseState, s: ParseState, d: int, m: int) -> bool {
    &&& st.arena == s.arena
    &&& st.roots == s.roots
    &&& st.stack == s.stack.take(d - m)
    &&& st.depth == d - m
}

/// After the first `m` closing lines of a chain.
#[verifier::spinoff_prover]
#[verifier::rlimit(40)]
proof fn lemma_close_phase(names: Seq<Seq<u8>>, s: ParseState, m: int) -> (st: ParseState)
    requires
        names.len() >= 1,
        forall|j: int| 0 <= j < names.len() ==> is_ident(#[trigger] names[j]),
        headers_state(s, names, names.len() as int),
        0 <= m <= names.len(),
    ensures
        closed_state(st, s, names.len() as int, m),
        run(chain_source(names), chain_headers(names).len() as int, s) == run(
            chain_source(names),
            chain_headers(names).len() + 2 * m,
            st,
        ),
    decreases m,
{
    let d = names.len() as int;
    let src = chain_source(names);
    let h = chain_headers(names).len() as int;
    if m == 0 {
        assert(s.stack.take(d) =~= s.stack);
        s
    } else {
        let st = lemma_close_phase(names, s, m - 1);
        let p = h + 2 * (m - 1);
        let l = seq![RBRACE];
        lemma_closers(d as nat);
        let cl = closers(d as nat);
        assert(cl[2 * (m - 1)] == RBRACE);
        assert(cl[2 * (m - 1) + 1] == NEWLINE);
        assert(src[p] == cl[2 * (m - 1)]);
        assert(src[p + 1] == cl[2 * (m - 1) + 1]);
        assert(src.subrange(p, p + 1) =~= l);
        lemma_run_line(src, p, l, st);
        lemma_close_step(st, s, d, m, p);
        step(st, l, p)
    }
}

/// One closing line closes the innermost open message.
#[verifier::spinoff_prover]
#[verifier::rlimit(60)]
proof fn lemma_close_step(st: ParseState, s: ParseState, d: int, m: int, p: int)
    requires
        0 < m <= d,
        s.stack.len() == d,
        forall|j: int| 0 <= j < d ==> #[trigger] s.stack[j] == (j as usize, j + 1),
        closed_state(st, s, d, m - 1),
    ensures
        closed_state(step(st, seq![RBRACE], p), s, d, m),
{
    let l = seq![RBRACE];
    lemma_closing_lines();
    let e = d - m;
    let nst = step(st, l, p);
    assert(nst == close_and_declare(st, l, p, e));
    let stk = st.stack;
    assert(stk.len() == e + 1);
    assert(stk.last() == s.stack[e]);
    assert(stk.drop_last() =~= s.stack.take(e));
    if e > 0 {
        assert(stk.drop_last().last() == s.stack[e - 1]);
    }
    assert(pop_closed(stk.drop_last(), e) == stk.drop_last());
    assert(pop_closed(stk, e) == stk.drop_last());
}

/// The trees of a chain's arena are linear chains.
proof fn lemma_chain_tree(st: ParseState, names: Seq<Seq<u8>>, j: int)
    requires
        headers_state(st, names, names.len() as int),
        0 <= j < names.len(),
    ensures
        super::laws::linear_chain(tree(st.arena, j), j as nat, names.len() as nat),
    decreases names.len() - j,
{
    let d = names.len() as int;
    let m = tree(st.arena, j);
    assert(st.arena[j].nesting_depth == j);
    if j + 1 < d {
        lemma_chain_tree(st, names, j + 1);
        assert(st.arena[j].children == seq![(j + 1) as usize]);
        assert(m.nested.len() == 1);
        assert(m.nested[0] == tree(st.arena, j + 1));
    } else {
        assert(st.arena[j].children.len() == 0);
    }
}

/// A linear chain of `d` messages, one declared inside the other with each
/// header and each closing brace on its own line, parses to one top-level
/// message heading a linear chain of `d` levels, whose nesting metric is
/// `0 + 1 + ... + (d - 1) = d(d-1)/2`.
pub proof fn law_parsed_chain_metric(names: Seq<Seq<u8>>, path: Seq<u8>)
    requires
        1 <= names.len() <= usize::MAX,
        forall|j: int| 0 <= j < names.len() ==> is_ident(#[trigger] names[j]),
    ensures
        parsed(chain_source(names), path).messages.len() == 1,
        super::laws::linear_chain(parsed(chain_source(names), path).messages[0], 0, names.len() as nat),
        nesting_depth_of(parsed(chain_source(names), path)) == names.len() * (names.len() - 1) / 2,
{
    let d = names.len() as int;
    let src = chain_source(names);
    let s = lemma_header_phase(names, d);
    assert(names.take(d) =~= names);
    let c = lemma_close_phase(names, s, d);
    lemma_closers(d as nat);
    let len = chain_headers(names).len() + 2 * d;
    assert(src.len() == len);
    lemma_closing_lines();
    assert(src.subrange(len, len) =~= Seq::<u8>::empty());
    assert(line_end(src, len) == len);
    assert(run(src, len, c) == step(c, Seq::<u8>::empty(), len));
    assert(run(src, len, c) == c);
    let f = parsed(src, path);
    assert(c.roots == seq![0usize]);
    lemma_chain_tree(s, names, 0);
    assert(f.messages[0] == tree(s.arena, 0));
    assert(f.messages =~= seq![f.messages[0]]);
    super::laws::law_linear_chain_depth(f.messages[0], d as nat);
}

/// The lines `ls`, each followed by a newline.
pub open spec fn joined(ls: Seq<Seq<u8>>) -> Seq<u8>
    decreases ls.len(),
{
    if ls.len() == 0 {
        Seq::empty()
    } else {
        ls[0] + seq![NEWLINE] + joined(ls.drop_first())
    }
}

/// The parser's state after the lines `ls`, the first starting at `p`.
pub open spec fn steps(ls: Seq<Seq<u8>>, st: ParseState, p: int) -> ParseState
    decreases ls.len(),
{
    if ls.len() == 0 {
        st
    } else {
        steps(ls.drop_first(), step(st, ls[0], p), p + ls[0].len() + 1)
    }
}

/// Over text made of whole lines, the parser steps line by line.
proof fn lemma_run_joined(src: Seq<u8>, p: int, ls: Seq<Seq<u8>>, st: ParseState)
    requires
        0 <= p,
        src.len() == p + joined(ls).len(),
        src.subrange(p, src.len() as int) == joined(ls),
        forall|k: int, i: int| 0 <= k < ls.len() && 0 <= i < ls[k].len() ==> #[trigger] ls[k][i] != NEWLINE,
    ensures
        run(src, p, st) == steps(ls, st, p),
    decreases ls.len(),
{
    if ls.len() == 0 {
        lemma_closing_lines();
        assert(line_end(src, p) == p);
        assert(src.subrange(p, p) =~= Seq::<u8>::empty());
    } else {
        let l = ls[0];
        let rest = ls.drop_first();
        let j = joined(ls);
        assert(j == l + seq![NEWLINE] + joined(rest));
        assert(src.subrange(p, p + l.len()) =~= l) by {
            assert forall|i: int| 0 <= i < l.len() implies #[trigger] src.subrange(p, p + l.len())[i] == l[i] by {
                assert(src.subrange(p, src.len() as int)[i] == j[i]);
            }
        }
        assert(src[p + l.len()] == NEWLINE) by {
            assert(src.subrange(p, src.len() as int)[l.len() as int] == j[l.len() as int]);
        }
        assert forall|i: int| 0 <= i < l.len() implies #[trigger] l[i] != NEWLINE by {
            assert(ls[0][i] != NEWLINE);
        }
        lemma_run_line(src, p, l, st);
        let q = p + l.len() + 1;
        assert(src.subrange(q, src.len() as int) =~= joined(rest)) by {
            assert forall|i: int| 0 <= i < joined(rest).len() implies #[trigger] src.subrange(q, src.len() as int)[i]
                == joined(rest)[i] by {
                assert(src.subrange(p, src.len() as int)[l.len() + 1 + i] == j[l.len() + 1 + i]);
            }
        }
        assert forall|k: int, i: int| 0 <= k < rest.len() && 0 <= i < rest[k].len() implies #[trigger] rest[k][i]
            != NEWLINE by {
            assert(rest[k] == ls[k + 1]);
        }
        lemma_run_joined(src, q, rest, step(st, l, p));
    }
}

/// `oneof`
pub open spec fn kw_oneof() -> Seq<u8> {
    seq![111u8, 110, 101, 111, 102]
}

/// `  oneof <name> {`
pub open spec fn oneof_line(name: Seq<u8>) -> Seq<u8> {
    seq![SPACE, SPACE] + kw_oneof() + seq![SPACE] + name + seq![SPACE, LBRACE]
}

/// `  }`
pub open spec fn inner_close_line() -> Seq<u8> {
    seq![SPACE, SPACE, RBRACE]
}

/// A message whose one `string` field is declared inside a `oneof`:
/// `message <name> {\n  oneof <group> {\n    [repeated ]string <field> = <number>;\n  }\n}\n`.
pub open spec fn oneof_source(name: Seq<u8>, group: Seq<u8>, field: Seq<u8>, number: nat, repeated: bool) -> Seq<u8> {
    joined(
        seq![
            header_line(name),
            oneof_line(group),
            field_line(field, number, repeated),
            inner_close_line(),
            seq![RBRACE],
        ],
    )
}

/// What the parser reads from a `oneof` header line: a `{` and nothing else.
proof fn lemma_oneof_line(g: Seq<u8>)
    requires
        is_ident(g),
    ensures
        !is_blank_or_comment(oneof_line(g)),
        syntax_of(oneof_line(g)) is None,
        package_of(oneof_line(g)) is None,
        import_of(oneof_line(g)) is None,
        brace_delta(oneof_line(g)) == 1,
        message_header(oneof_line(g)) is None,
        field_decl(oneof_line(g)) is None,
        forall|k: int| 0 <= k < oneof_line(g).len() ==> #[trigger] oneof_line(g)[k] != NEWLINE,
{
    let l = oneof_line(g);
    let n = g.len() as int;
    assert(l.len() == 10 + n);
    assert(l[0] == SPACE && l[1] == SPACE);
    assert(l[2] == 111u8 && l[3] == 110u8 && l[4] == 101u8 && l[5] == 111u8 && l[6] == 102u8);
    assert(l[7] == SPACE);
    assert forall|k: int| 0 <= k < n implies #[trigger] l[8 + k] == g[k] by {}
    assert(l[8 + n] == SPACE);
    assert(l[9 + n] == LBRACE);
    assert(uws_width(l, 2) == 0);
    assert(uws_end(l, 2) == 2);
    assert(uws_end(l, 1) == 2);
    assert(uws_end(l, 0) == 2);
    lemma_not_statement(l, 2);
    assert forall|k: int| 0 <= k < l.len() implies #[trigger] l[k] != NEWLINE && (k < 9 + n ==> l[k]
        != LBRACE) && l[k] != RBRACE by {
        if 8 <= k < 8 + n {
            assert(l[k] == g[k - 8]);
            assert(ident_byte(g[k - 8]));
        }
    }
    let x = l.drop_last();
    assert forall|k: int| 0 <= k < x.len() implies #[trigger] x[k] != LBRACE by {
        assert(x[k] == l[k]);
    }
    lemma_count_absent(x, LBRACE);
    lemma_count_absent(l, RBRACE);
    assert(count_byte(l, LBRACE) == 1);
    lemma_run_end_exact(l, 0, 2, |c: u8| blank_byte(c));
    assert(blank_end(l, 0) == 2);
    assert(!has_at(l, 2, kw_message())) by {
        if has_at(l, 2, kw_message()) {
            assert(l.subrange(2, 9)[0] == l[2]);
        }
    }
    // No field: `oneof` reads as a type and the group as a name, but `{`
    // stands where `=` would.
    assert forall|k: int| 2 <= k < 7 implies ident_byte(#[trigger] l[k]) by {}
    lemma_run_end_exact(l, 2, 7, |c: u8| ident_byte(c));
    assert(l.subrange(2, 7).len() == 5);
    assert(!has_at(l, 2, super::lexer::kw_map())) by {
        if has_at(l, 2, super::lexer::kw_map()) {
            assert(l.subrange(2, 6)[0] == l[2]);
        }
    }
    assert forall|k: int| 2 <= k < 7 implies super::lexer::type_byte(#[trigger] l[k]) by {}
    lemma_run_end_exact(l, 2, 7, |c: u8| super::lexer::type_byte(c));
    lemma_run_end_exact(l, 7, 8, |c: u8| blank_byte(c));
    assert forall|k: int| 8 <= k < 8 + n implies ident_byte(#[trigger] l[k]) by {
        assert(l[k] == g[k - 8]);
    }
    lemma_run_end_exact(l, 8, 8 + n, |c: u8| ident_byte(c));
    lemma_run_end_exact(l, 8 + n, 9 + n, |c: u8| blank_byte(c));
}

/// What the parser reads from the line `  }`: a `}` and nothing else.
proof fn lemma_inner_close_line()
    ensures
        !is_blank_or_comment(inner_close_line()),
        syntax_of(inner_close_line()) is None,
        package_of(inner_close_line()) is None,
        import_of(inner_close_line()) is None,
        brace_delta(inner_close_line()) == -1,
        message_header(inner_close_line()) is None,
        field_decl(inner_close_line()) is None,
        forall|k: int| 0 <= k < inner_close_line().len() ==> #[trigger] inner_close_line()[k] != NEWLINE,
{
    let l = inner_close_line();
    assert(uws_width(l, 2) == 0);
    assert(uws_end(l, 2) == 2);
    assert(uws_end(l, 1) == 2);
    assert(uws_end(l, 0) == 2);
    lemma_not_statement(l, 2);
    assert(l.drop_last() =~= seq![SPACE, SPACE]);
    assert(seq![SPACE, SPACE].drop_last() =~= seq![SPACE]);
    assert(seq![SPACE].drop_last() =~= Seq::<u8>::empty());
    assert(count_byte(Seq::<u8>::empty(), LBRACE) == 0);
    assert(count_byte(Seq::<u8>::empty(), RBRACE) == 0);
    assert(count_byte(seq![SPACE], LBRACE) == 0);
    assert(count_byte(seq![SPACE], RBRACE) == 0);
    assert(count_byte(seq![SPACE, SPACE], LBRACE) == 0);
    assert(count_byte(seq![SPACE, SPACE], RBRACE) == 0);
    assert(count_byte(l, LBRACE) == 0);
    assert(count_byte(l, RBRACE) == 1);
    lemma_run_end_exact(l, 0, 2, |c: u8| blank_byte(c));
    assert(blank_end(l, 0) == 2);
}

/// The parser's states over the lines of [`oneof_source`].
#[verifier::spinoff_prover]
#[verifier::rlimit(40)]
proof fn lemma_oneof_states(name: Seq<u8>, group: Seq<u8>, field: Seq<u8>, number: nat, repeated: bool, p2: int, p3: int, p4: int, p5: int)
    requires
        is_ident(name),
        is_ident(group),
        is_ident(field),
        number <= i64::MAX,
    ensures
        ({
            let s1 = step(initial_state(), header_line(name), 0);
            let s2 = step(s1, oneof_line(group), p2);
            let s3 = step(s2, field_line(field, number, repeated), p3);
            let s4 = step(s3, inner_close_line(), p4);
            let s5 = step(s4, seq![RBRACE], p5);
            &&& s5.roots == seq![0usize]
            &&& s5.arena.len() == 1
            &&& s5.arena[0].name == name
            &&& s5.arena[0].children.len() == 0
            &&& s5.arena[0].fields.len() == 1
            &&& s5.arena[0].fields[0].name == field
            &&& s5.arena[0].fields[0].ty == kw_string()
            &&& s5.arena[0].fields[0].number == number
            &&& s5.arena[0].fields[0].repeated == repeated
            &&& !s5.arena[0].fields[0].optional
        }),
{
    let l2 = oneof_line(group);
    let l3 = field_line(field, number, repeated);
    let l4 = inner_close_line();
    let l5 = seq![RBRACE];
    let ts: int = if repeated { 13 } else { 4 };
    lemma_header_line(name);
    lemma_oneof_line(group);
    lemma_decimal(number);
    lemma_field_line_layout(field, number, repeated);
    lemma_field_line_plain(l3, field, decimal(number), repeated, ts);
    lemma_field_line_decl(l3, field, decimal(number), repeated, ts);
    lemma_inner_close_line();
    lemma_closing_lines();
    let s0 = initial_state();
    let s1 = step(s0, header_line(name), 0);
    lemma_header_step_opens(s0, name, 0);
    assert(s1.stack =~= seq![(0usize, 1int)]);
    assert(s1.roots =~= seq![0usize]);
    assert(s1.arena.len() == 1);
    assert(s1.arena[0].name == name);
    assert(s1.arena[0].fields.len() == 0);
    assert(s1.arena[0].children.len() == 0);
    let s2 = step(s1, l2, p2);
    assert(pop_closed(s1.stack, 2) == s1.stack);
    assert(s2 == close_and_declare(s1, l2, p2, 2));
    assert(s2.arena == s1.arena);
    assert(s2.stack == s1.stack);
    assert(s2.depth == 2);
    let s3 = step(s2, l3, p3);
    assert(pop_closed(s2.stack, 2) == s2.stack);
    let d = field_decl(l3)->0;
    assert(s3 == close_and_declare(s2, l3, p3, 2));
    assert(s3.arena.len() == 1);
    assert(s3.arena[0].fields =~= seq![field_of(l3, p3, d)]);
    assert(s3.arena[0].name == name);
    assert(s3.arena[0].children.len() == 0);
    assert(s3.stack == s1.stack);
    assert(s3.depth == 2);
    let s4 = step(s3, l4, p4);
    assert(pop_closed(s3.stack, 1) == s3.stack);
    assert(s4 == close_and_declare(s3, l4, p4, 1));
    assert(s4.arena == s3.arena);
    assert(s4.stack == s3.stack);
    assert(s4.depth == 1);
    let s5 = step(s4, l5, p5);
    assert(s4.stack.drop_last() =~= Seq::<(usize, int)>::empty());
    assert(pop_closed(s4.stack.drop_last(), 0) =~= Seq::<(usize, int)>::empty());
    assert(pop_closed(s4.stack, 0) =~= Seq::<(usize, int)>::empty());
    assert(s5 == close_and_declare(s4, l5, p5, 0));
    assert(s5.arena == s4.arena);
    assert(s5.roots == s1.roots);
}

/// A field declared inside a `oneof` block belongs to the enclosing
/// message, whatever the brace depth: the message with one `string` field
/// inside a `oneof` parses to one top-level message holding that field,
/// with its name, type, number and `repeated` flag.
pub proof fn law_oneof_field_belongs_to_message(
    name: Seq<u8>,
    group: Seq<u8>,
    field: Seq<u8>,
    number: nat,
    repeated: bool,
    path: Seq<u8>,
)
    requires
        is_ident(name),
        is_ident(group),
        is_ident(field),
        number <= i64::MAX,
    ensures
        parsed(oneof_source(name, group, field, number, repeated), path).messages.len() == 1,
        parsed(oneof_source(name, group, field, number, repeated), path).messages[0].name == name,
        parsed(oneof_source(name, group, field, number, repeated), path).messages[0].fields.len() == 1,
        parsed(oneof_source(name, group, field, number, repeated), path).messages[0].fields[0].name == field,
        parsed(oneof_source(name, group, field, number, repeated), path).messages[0].fields[0].ty == kw_string(),
        parsed(oneof_source(name, group, field, number, repeated), path).messages[0].fields[0].number == number,
        parsed(oneof_source(name, group, field, number, repeated), path).messages[0].fields[0].repeated == repeated,
{
    let ls = seq![header_line(name), oneof_line(group), field_line(field, number, repeated), inner_close_line(), seq![RBRACE]];
    let src = oneof_source(name, group, field, number, repeated);
    lemma_lines_unbroken(name, field, number, repeated);
    lemma_oneof_line(group);
    lemma_inner_close_line();
    assert forall|k: int, i: int| 0 <= k < ls.len() && 0 <= i < ls[k].len() implies #[trigger] ls[k][i] != NEWLINE by {
        if k == 4 {
            assert(ls[4][i] == RBRACE);
        }
    }
    assert(src.subrange(0, src.len() as int) =~= joined(ls));
    lemma_run_joined(src, 0, ls, initial_state());
    let p2: int = ls[0].len() + 1int;
    let p3: int = p2 + ls[1].len() + 1;
    let p4: int = p3 + ls[2].len() + 1;
    let p5: int = p4 + ls[3].len() + 1;
    lemma_oneof_states(name, group, field, number, repeated, p2, p3, p4, p5);
    let s1 = step(initial_state(), ls[0], 0);
    let s2 = step(s1, ls[1], p2);
    let s3 = step(s2, ls[2], p3);
    let s4 = step(s3, ls[3], p4);
    let s5 = step(s4, ls[4], p5);
    assert(ls.drop_first().drop_first().drop_first().drop_first().drop_first() =~= Seq::<Seq<u8>>::empty());
    assert(steps(ls, initial_state(), 0) == s5) by {
        reveal_with_fuel(steps, 6);
        assert(ls.drop_first()[0] == ls[1]);
        assert(ls.drop_first().drop_first()[0] == ls[2]);
        assert(ls.drop_first().drop_first().drop_first()[0] == ls[3]);
        assert(ls.drop_first().drop_first().drop_first().drop_first()[0] == ls[4]);
    }
    let m = tree(s5.arena, 0);
    assert(m.name == name);
    assert(m.fields == s5.arena[0].fields);
    assert(parsed(src, path).messages[0] == m);
}

} // verus!
