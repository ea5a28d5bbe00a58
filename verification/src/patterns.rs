//! Catalog of known CVE / RUSTSEC patterns on protobuf deserialization
//! surfaces.
use vstd::prelude::*;
use vstd::string::*;
use vstd::utf8::*;
use crate::text::str_eq;

verus! {

/// Pattern ids, referenced by the scanner.
pub const CVE_2024_7254: &'static str = "CVE-2024-7254-CLASS";
pub const UAF_PYTHON_BUFFER: &'static str = "PROTOBUF-UAF-PYTHON-BUFFER";
pub const RECURSION_PROTO2: &'static str = "PROTOBUF-RECURSION-PROTO2";
pub const UNKNOWN_FIELD_OVERFLOW: &'static str = "PROTOBUF-UNKNOWN-FIELD-OVERFLOW";
pub const RUSTSEC_2020_0002: &'static str = "RUSTSEC-2020-0002";
pub const RUSTSEC_2024_0437: &'static str = "RUSTSEC-2024-0437";

/// A documented vulnerability pattern the scanner can attribute findings to.
#[derive(Debug, Clone, PartialEq, Eq)]
pub struct CvePattern {
    pub id: &'static str,
    pub title: &'static str,
    pub description: &'static str,
    pub affected_languages: Vec<&'static str>,
    /// Fixed-version note for advisories with a known remediation.
    pub fixed_in: Option<&'static str>,
}

/// The view of a [`CvePattern`].
pub struct PatternView {
    pub id: Seq<u8>,
    pub title: Seq<u8>,
    pub description: Seq<u8>,
    pub affected_languages: Seq<Seq<u8>>,
    pub fixed_in: Option<Seq<u8>>,
}

/// The bytes of each string slice.
pub open spec fn strs_view(v: Seq<&str>) -> Seq<Seq<u8>> {
    v.map_values(|s: &str| s.spec_bytes())
}

impl View for CvePattern {
    type V = PatternView;

    open spec fn view(&self) -> PatternView {
        PatternView {
            id: self.id.spec_bytes(),
            title: self.title.spec_bytes(),
            description: self.description.spec_bytes(),
            affected_languages: strs_view(self.affected_languages@),
            fixed_in: match self.fixed_in {
                Some(f) => Some(f.spec_bytes()),
                None => None,
            },
        }
    }
}

/// The views of a sequence of patterns.
pub open spec fn patterns_view(v: Seq<CvePattern>) -> Seq<PatternView> {
    v.map_values(|p: CvePattern| p@)
}

/// The `CVE_2024_7254` entry.
pub open spec fn entry_type_group() -> PatternView {
    PatternView {
        id: CVE_2024_7254.spec_bytes(),
        title: "Unbounded recursion via deeply nested TYPE_GROUP".spec_bytes(),
        description: "Parsing nested groups as unknown fields did not track recursion depth, \
                      allowing stack overflow via crafted messages (DiscardUnknownFieldsParser, \
                      protobuf-lite, or map fields). CVSS 8.7. Fixed in 3.25.5 / 4.27.5 / 4.28.2.".spec_bytes(),
        affected_languages: seq!["java".spec_bytes(), "kotlin".spec_bytes()],
        fixed_in: Some("3.25.5, 4.27.5, 4.28.2".spec_bytes()),
    }
}

fn make_type_group() -> (r: CvePattern)
    ensures
        r@ == entry_type_group(),
{
    let r = CvePattern {
        id: CVE_2024_7254,
        title: "Unbounded recursion via deeply nested TYPE_GROUP",
        description: "Parsing nested groups as unknown fields did not track recursion depth, \
                      allowing stack overflow via crafted messages (DiscardUnknownFieldsParser, \
                      protobuf-lite, or map fields). CVSS 8.7. Fixed in 3.25.5 / 4.27.5 / 4.28.2.",
        affected_languages: vec!["java", "kotlin"],
        fixed_in: Some("3.25.5, 4.27.5, 4.28.2"),
    };
    assert(strs_view(r.affected_languages@) =~= entry_type_group().affected_languages);
    r
}

/// The `UAF_PYTHON_BUFFER` entry.
pub open spec fn entry_python_buffer() -> PatternView {
    PatternView {
        id: UAF_PYTHON_BUFFER.spec_bytes(),
        title: "Use-after-free via Python Buffer Objects in MergeFromString".spec_bytes(),
        description: "MergeFromString accepted buffer objects whose underlying memory could be \
                      freed while protobuf still held a reference, causing UAF.".spec_bytes(),
        affected_languages: seq!["python".spec_bytes()],
        fixed_in: None,
    }
}

fn make_python_buffer() -> (r: CvePattern)
    ensures
        r@ == entry_python_buffer(),
{
    let r = CvePattern {
        id: UAF_PYTHON_BUFFER,
        title: "Use-after-free via Python Buffer Objects in MergeFromString",
        description: "MergeFromString accepted buffer objects whose underlying memory could be \
                      freed while protobuf still held a reference, causing UAF.",
        affected_languages: vec!["python"],
        fixed_in: None,
    };
    assert(strs_view(r.affected_languages@) =~= entry_python_buffer().affected_languages);
    r
}

/// The `RECURSION_PROTO2` entry.
pub open spec fn entry_nested_recursion() -> PatternView {
    PatternView {
        id: RECURSION_PROTO2.spec_bytes(),
        title: "Unbounded stack recursion via deeply nested messages".spec_bytes(),
        description: "Messages with deeply nested submessages can cause stack overflow during \
                      parsing when recursion depth is untracked.".spec_bytes(),
        affected_languages: seq!["cpp".spec_bytes(), "java".spec_bytes(), "python".spec_bytes(), "go".spec_bytes(), "rust".spec_bytes()],
        fixed_in: None,
    }
}

fn make_nested_recursion() -> (r: CvePattern)
    ensures
        r@ == entry_nested_recursion(),
{
    let r = CvePattern {
        id: RECURSION_PROTO2,
        title: "Unbounded stack recursion via deeply nested messages",
        description: "Messages with deeply nested submessages can cause stack overflow during \
                      parsing when recursion depth is untracked.",
        affected_languages: vec!["cpp", "java", "python", "go", "rust"],
        fixed_in: None,
    };
    assert(strs_view(r.affected_languages@) =~= entry_nested_recursion().affected_languages);
    r
}

/// The `UNKNOWN_FIELD_OVERFLOW` entry.
pub open spec fn entry_unknown_fields() -> PatternView {
    PatternView {
        id: UNKNOWN_FIELD_OVERFLOW.spec_bytes(),
        title: "Memory exhaustion via unknown fields in InternalMetadata".spec_bytes(),
        description: "Large unknown field sets can cause excessive memory allocation without \
                      proper bounds checking.".spec_bytes(),
        affected_languages: seq!["cpp".spec_bytes()],
        fixed_in: None,
    }
}

fn make_unknown_fields() -> (r: CvePattern)
    ensures
        r@ == entry_unknown_fields(),
{
    let r = CvePattern {
        id: UNKNOWN_FIELD_OVERFLOW,
        title: "Memory exhaustion via unknown fields in InternalMetadata",
        description: "Large unknown field sets can cause excessive memory allocation without \
                      proper bounds checking.",
        affected_languages: vec!["cpp"],
        fixed_in: None,
    };
    assert(strs_view(r.affected_languages@) =~= entry_unknown_fields().affected_languages);
    r
}

/// The `RUSTSEC_2020_0002` entry.
pub open spec fn entry_prost_overflow() -> PatternView {
    PatternView {
        id: RUSTSEC_2020_0002.spec_bytes(),
        title: "prost: stack overflow decoding a crafted message".spec_bytes(),
        description: "prost < 0.6.1 could overflow the stack when decoding deeply nested untrusted \
                      input (CVE-2020-35858, CVSS 9.8). Fixed by upgrading to prost >= 0.6.1, which \
                      enforces a recursion limit via DecodeContext.".spec_bytes(),
        affected_languages: seq!["rust".spec_bytes()],
        fixed_in: Some("0.6.1".spec_bytes()),
    }
}

fn make_prost_overflow() -> (r: CvePattern)
    ensures
        r@ == entry_prost_overflow(),
{
    let r = CvePattern {
        id: RUSTSEC_2020_0002,
        title: "prost: stack overflow decoding a crafted message",
        description: "prost < 0.6.1 could overflow the stack when decoding deeply nested untrusted \
                      input (CVE-2020-35858, CVSS 9.8). Fixed by upgrading to prost >= 0.6.1, which \
                      enforces a recursion limit via DecodeContext.",
        affected_languages: vec!["rust"],
        fixed_in: Some("0.6.1"),
    };
    assert(strs_view(r.affected_languages@) =~= entry_prost_overflow().affected_languages);
    r
}

/// The `RUSTSEC_2024_0437` entry.
pub open spec fn entry_skip_group() -> PatternView {
    PatternView {
        id: RUSTSEC_2024_0437.spec_bytes(),
        title: "rust-protobuf: uncontrolled recursion in skip_group".spec_bytes(),
        description: "The `protobuf` crate <= 3.4.0 could stack-overflow on untrusted input via \
                      uncontrolled recursion in skip_group (CVE-2025-53605). Fixed in >= 3.7.2.".spec_bytes(),
        affected_languages: seq!["rust".spec_bytes()],
        fixed_in: Some("3.7.2".spec_bytes()),
    }
}

fn make_skip_group() -> (r: CvePattern)
    ensures
        r@ == entry_skip_group(),
{
    let r = CvePattern {
        id: RUSTSEC_2024_0437,
        title: "rust-protobuf: uncontrolled recursion in skip_group",
        description: "The `protobuf` crate <= 3.4.0 could stack-overflow on untrusted input via \
                      uncontrolled recursion in skip_group (CVE-2025-53605). Fixed in >= 3.7.2.",
        affected_languages: vec!["rust"],
        fixed_in: Some("3.7.2"),
    };
    assert(strs_view(r.affected_languages@) =~= entry_skip_group().affected_languages);
    r
}

/// The full pattern catalog.
pub open spec fn catalog() -> Seq<PatternView> {
    seq![
        entry_type_group(),
        entry_python_buffer(),
        entry_nested_recursion(),
        entry_unknown_fields(),
        entry_prost_overflow(),
        entry_skip_group(),
    ]
}

/// The full pattern catalog.
pub fn patterns_table() -> (r: Vec<CvePattern>)
    ensures
        patterns_view(r@) == catalog(),
{
    let mut r: Vec<CvePattern> = Vec::new();
    r.push(make_type_group());
    r.push(make_python_buffer());
    r.push(make_nested_recursion());
    r.push(make_unknown_fields());
    r.push(make_prost_overflow());
    r.push(make_skip_group());
    assert(patterns_view(r@) =~= catalog());
    r
}

/// The pattern lists `lang` among its affected languages.
pub open spec fn affects(p: PatternView, lang: Seq<u8>) -> bool {
    p.affected_languages.contains(lang)
}

/// The patterns that affect `lang`, in catalog order; all of them for `None`.
pub open spec fn select(ps: Seq<PatternView>, lang: Option<Seq<u8>>) -> Seq<PatternView>
    decreases ps.len(),
{
    if ps.len() == 0 {
        Seq::empty()
    } else {
        select(ps.drop_last(), lang) + if lang is None || affects(ps.last(), lang->0) {
            seq![ps.last()]
        } else {
            Seq::empty()
        }
    }
}

/// The first pattern with id `id`.
pub open spec fn first_with_id(ps: Seq<PatternView>, id: Seq<u8>) -> Option<PatternView>
    decreases ps.len(),
{
    if ps.len() == 0 {
        None
    } else if ps[0].id == id {
        Some(ps[0])
    } else {
        first_with_id(ps.drop_first(), id)
    }
}

/// The view of an optional pattern.
pub open spec fn opt_pattern_view(p: Option<CvePattern>) -> Option<PatternView> {
    match p {
        Some(x) => Some(x@),
        None => None,
    }
}

fn lists_language(p: &CvePattern, lang: &str) -> (r: bool)
    ensures
        r == affects(p@, lang.spec_bytes()),
{
    let mut i: usize = 0;
    while i < p.affected_languages.len()
        invariant
            i <= p.affected_languages.len(),
            forall|j: int| 0 <= j < i ==> p@.affected_languages[j] != lang.spec_bytes(),
        decreases p.affected_languages.len() - i,
    {
        if str_eq(p.affected_languages[i], lang) {
            assert(p@.affected_languages[i as int] == lang.spec_bytes());
            return true;
        }
        i = i + 1;
    }
    false
}

/// Return all patterns, optionally filtered to those affecting `language`.
pub fn get_patterns(language: Option<&str>) -> (r: Vec<CvePattern>)
    ensures
        patterns_view(r@) == select(
            catalog(),
            match language {
                Some(l) => Some(l.spec_bytes()),
                None => None,
            },
        ),
{
    let ghost lang = match language {
        Some(l) => Some(l.spec_bytes()),
        None => None,
    };
    let table = patterns_table();
    let ghost all = patterns_view(table@);
    assert(all.take(0) =~= Seq::<PatternView>::empty());
    let mut out: Vec<CvePattern> = Vec::new();
    for p in it: table
        invariant
            all == patterns_view(it.seq()),
            all == catalog(),
            patterns_view(out@) == select(all.take(it.index() as int), lang),
            lang == match language {
                Some(l) => Some(l.spec_bytes()),
                None => None,
            },
    {
        let ghost i = it.index();
        assert(all.take(i + 1).drop_last() =~= all.take(i as int));
        assert(all.take(i + 1).last() == p@);
        let keep = match language {
            Some(l) => lists_language(&p, l),
            None => true,
        };
        let ghost before = out@;
        if keep {
            out.push(p);
            assert(patterns_view(out@) =~= patterns_view(before).push(p@));
        }
    }
    assert(all.take(all.len() as int) =~= all);
    out
}

/// Look up a pattern by id.
pub fn get_pattern_by_id(id: &str) -> (r: Option<CvePattern>)
    ensures
        opt_pattern_view(r) == first_with_id(catalog(), id.spec_bytes()),
{
    let table = patterns_table();
    let ghost all = patterns_view(table@);
    assert(all.skip(0) =~= all);
    for p in it: table
        invariant
            all == patterns_view(it.seq()),
            all == catalog(),
            first_with_id(all, id.spec_bytes()) == first_with_id(all.skip(it.index() as int), id.spec_bytes()),
    {
        let ghost i = it.index();
        assert(all.skip(i as int)[0] == p@);
        assert(all.skip(i as int).drop_first() =~= all.skip(i + 1));
        if str_eq(p.id, id) {
            return Some(p);
        }
    }
    assert(all.skip(all.len() as int) =~= Seq::<PatternView>::empty());
    None
}


/// The bytes of an ASCII text are its characters.
proof fn lemma_ascii_text_bytes(a: &str)
    requires
        is_ascii_chars(a@),
    ensures
        a.spec_bytes().len() == a@.len(),
        forall|i: int| 0 <= i < a@.len() ==> a.spec_bytes()[i] == a@[i] as u8,
{
    is_ascii_chars_encode_utf8(a@);
}

proof fn lemma_id_cve_2024_7254()
    ensures
        CVE_2024_7254.spec_bytes().len() == 19,
{
    reveal_strlit("CVE-2024-7254-CLASS");
    lemma_ascii_text_bytes(CVE_2024_7254);
}

proof fn lemma_id_uaf_python_buffer()
    ensures
        UAF_PYTHON_BUFFER.spec_bytes().len() == 26,
{
    reveal_strlit("PROTOBUF-UAF-PYTHON-BUFFER");
    lemma_ascii_text_bytes(UAF_PYTHON_BUFFER);
}

proof fn lemma_id_recursion_proto2()
    ensures
        RECURSION_PROTO2.spec_bytes().len() == 25,
{
    reveal_strlit("PROTOBUF-RECURSION-PROTO2");
    lemma_ascii_text_bytes(RECURSION_PROTO2);
}

proof fn lemma_id_unknown_field_overflow()
    ensures
        UNKNOWN_FIELD_OVERFLOW.spec_bytes().len() == 31,
{
    reveal_strlit("PROTOBUF-UNKNOWN-FIELD-OVERFLOW");
    lemma_ascii_text_bytes(UNKNOWN_FIELD_OVERFLOW);
}

proof fn lemma_id_rustsec_2020_0002()
    ensures
        RUSTSEC_2020_0002.spec_bytes().len() == 17,
        RUSTSEC_2020_0002.spec_bytes()[11] == 48u8,
{
    reveal_strlit("RUSTSEC-2020-0002");
    lemma_ascii_text_bytes(RUSTSEC_2020_0002);
}

proof fn lemma_id_rustsec_2024_0437()
    ensures
        RUSTSEC_2024_0437.spec_bytes().len() == 17,
        RUSTSEC_2024_0437.spec_bytes()[11] == 52u8,
{
    reveal_strlit("RUSTSEC-2024-0437");
    lemma_ascii_text_bytes(RUSTSEC_2024_0437);
}

/// The catalog's ids are pairwise distinct.
pub proof fn law_ids_distinct()
    ensures
        forall|i: int, j: int|
            0 <= i < catalog().len() && 0 <= j < catalog().len() && i != j ==> catalog()[i].id
                != catalog()[j].id,
{
    lemma_id_cve_2024_7254();
    lemma_id_uaf_python_buffer();
    lemma_id_recursion_proto2();
    lemma_id_unknown_field_overflow();
    lemma_id_rustsec_2020_0002();
    lemma_id_rustsec_2024_0437();
    let c = catalog();
    assert(c.len() == 6);
    assert(c[0].id == CVE_2024_7254.spec_bytes());
    assert(c[1].id == UAF_PYTHON_BUFFER.spec_bytes());
    assert(c[2].id == RECURSION_PROTO2.spec_bytes());
    assert(c[3].id == UNKNOWN_FIELD_OVERFLOW.spec_bytes());
    assert(c[4].id == RUSTSEC_2020_0002.spec_bytes());
    assert(c[5].id == RUSTSEC_2024_0437.spec_bytes());
}

proof fn lemma_first_with_id(ps: Seq<PatternView>, k: int)
    requires
        0 <= k < ps.len(),
        forall|j: int| 0 <= j < k ==> ps[j].id != ps[k].id,
    ensures
        first_with_id(ps, ps[k].id) == Some(ps[k]),
    decreases k,
{
    if k > 0 {
        lemma_first_with_id(ps.drop_first(), k - 1);
    }
}

/// Looking a catalog pattern up by its id gives that pattern.
pub proof fn law_lookup_by_id(k: int)
    requires
        0 <= k < catalog().len(),
    ensures
        first_with_id(catalog(), catalog()[k].id) == Some(catalog()[k]),
{
    law_ids_distinct();
    lemma_first_with_id(catalog(), k);
}

} // verus!
