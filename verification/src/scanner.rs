//! Scan a parsed `.proto` file for known CVE patterns and structural DoS
//! risks.
//!
//! [`findings_of`] states the findings, rule by rule, in the order in which
//! [`scan`] reports them.
use vstd::prelude::*;
use vstd::string::*;
use crate::text::{decimal, push_decimal, push_str, push_string, sbytes, str_eq};
use crate::patterns::{
    catalog, first_with_id, get_pattern_by_id, opt_pattern_view, CVE_2024_7254, RECURSION_PROTO2,
    UNKNOWN_FIELD_OVERFLOW,
};
use crate::proto::{
    has_recursive_refs, max_nesting_depth, messages_view, nesting_depth_of, pairs_view,
    recursive_refs, same_text, FieldView, FileView, MessageView, ProtoField, ProtoFile,
    ProtoMessage, Span,
};
use crate::proto::model::fields_view;
use crate::proto::laws::{lemma_top_level_spans, message_spans_ok, span_within};
use crate::proto::parsed;

verus! {

broadcast use vstd::seq::group_seq_axioms;

/// Severity of a scan finding.
#[derive(Debug, Clone, Copy, PartialEq, Eq, Structural)]
pub enum Severity {
    Critical,
    Warning,
    Info,
}

/// The lowercase name of a severity.
pub open spec fn severity_text(s: Severity) -> Seq<u8> {
    match s {
        Severity::Critical => "critical".spec_bytes(),
        Severity::Warning => "warning".spec_bytes(),
        Severity::Info => "info".spec_bytes(),
    }
}

impl Severity {
    pub fn as_str(self) -> (r: &'static str)
        ensures
            r.spec_bytes() == severity_text(self),
    {
        match self {
            Severity::Critical => "critical",
            Severity::Warning => "warning",
            Severity::Info => "info",
        }
    }
}

/// A single scan finding.
#[derive(Debug, Clone, PartialEq, Eq)]
pub struct Finding {
    pub severity: Severity,
    /// Id of the attributed pattern, if any.
    pub pattern_id: Option<&'static str>,
    pub message: String,
    pub file_path: String,
    /// Byte span into the source of the offending construct, if known.
    pub span: Option<Span>,
}

/// The view of a [`Finding`].
pub struct FindingView {
    pub severity: Severity,
    pub pattern_id: Option<Seq<u8>>,
    pub message: Seq<u8>,
    pub file_path: Seq<u8>,
    pub span: Option<Span>,
}

impl View for Finding {
    type V = FindingView;

    open spec fn view(&self) -> FindingView {
        FindingView {
            severity: self.severity,
            pattern_id: match self.pattern_id {
                Some(p) => Some(p.spec_bytes()),
                None => None,
            },
            message: sbytes(self.message),
            file_path: sbytes(self.file_path),
            span: self.span,
        }
    }
}

/// The views of a sequence of findings.
pub open spec fn findings_view(v: Seq<Finding>) -> Seq<FindingView> {
    v.map_values(|f: Finding| f@)
}

/// A finding about the file `f`.
pub open spec fn finding(
    severity: Severity,
    pattern_id: Option<Seq<u8>>,
    message: Seq<u8>,
    f: FileView,
    span: Option<Span>,
) -> FindingView {
    FindingView { severity, pattern_id, message, file_path: f.file_path, span }
}

impl Finding {
    fn new(
        severity: Severity,
        pattern_id: Option<&'static str>,
        message: String,
        proto: &ProtoFile,
        span: Option<Span>,
    ) -> (r: Self)
        ensures
            r@ == finding(
                severity,
                match pattern_id {
                    Some(p) => Some(p.spec_bytes()),
                    None => None,
                },
                sbytes(message),
                proto@,
                span,
            ),
    {
        Finding { severity, pattern_id, message, file_path: proto.file_path.clone(), span }
    }
}

/// `Message nesting depth <d> exceeds safe threshold (5). ...`
pub open spec fn deep_text(d: nat) -> Seq<u8> {
    "Message nesting depth ".spec_bytes() + decimal(d)
        + " exceeds safe threshold (5). Vulnerable to stack overflow via deeply nested parsing.".spec_bytes()
}

/// `Message nesting depth <d> is moderate. ...`
pub open spec fn moderate_text(d: nat) -> Seq<u8> {
    "Message nesting depth ".spec_bytes() + decimal(d)
        + " is moderate. Consider adding recursion depth limits in generated harnesses.".spec_bytes()
}

/// `Recursive message reference: <m>.<f> references itself. ...`
pub open spec fn recursive_text(m: Seq<u8>, f: Seq<u8>) -> Seq<u8> {
    "Recursive message reference: ".spec_bytes() + m + ".".spec_bytes() + f
        + " references itself. Vulnerable to unbounded recursion attacks.".spec_bytes()
}

/// `Field <m>.<f> uses deprecated TYPE_GROUP. ...`
pub open spec fn group_text(m: Seq<u8>, f: Seq<u8>) -> Seq<u8> {
    "Field ".spec_bytes() + m + ".".spec_bytes() + f
        + " uses deprecated TYPE_GROUP. Known CVE surface (CVE-2024-7254 class). Replace with nested message.".spec_bytes()
}

/// `Repeated nested message: <m>.<f>. ...`
pub open spec fn nested_text(m: Seq<u8>, f: Seq<u8>) -> Seq<u8> {
    "Repeated nested message: ".spec_bytes() + m + ".".spec_bytes() + f
        + ". Can cause memory exhaustion without size limits.".spec_bytes()
}

/// `<m> has <n> repeated bytes fields. ...`
pub open spec fn bytes_text(m: Seq<u8>, n: nat) -> Seq<u8> {
    m + " has ".spec_bytes() + decimal(n)
        + " repeated bytes fields. Potential for memory exhaustion via large payloads.".spec_bytes()
}

/// Rule 1: the nesting metric, at the first message's name.
pub open spec fn depth_findings(f: FileView) -> Seq<FindingView> {
    let d = nesting_depth_of(f);
    let first = if f.messages.len() > 0 {
        Some(f.messages[0].span)
    } else {
        None
    };
    if d >= 5 {
        seq![finding(Severity::Critical, Some(RECURSION_PROTO2.spec_bytes()), deep_text(d), f, first)]
    } else if d >= 3 {
        seq![finding(Severity::Warning, None, moderate_text(d), f, first)]
    } else {
        Seq::empty()
    }
}

/// The index of the first message named `name`.
pub open spec fn find_message(ms: Seq<MessageView>, name: Seq<u8>) -> Option<int>
    decreases ms.len(),
{
    if ms.len() == 0 {
        None
    } else if ms[0].name == name {
        Some(0)
    } else {
        match find_message(ms.drop_first(), name) {
            Some(k) => Some(k + 1),
            None => None,
        }
    }
}

/// The index of the first field named `name`.
pub open spec fn find_field(fs: Seq<FieldView>, name: Seq<u8>) -> Option<int>
    decreases fs.len(),
{
    if fs.len() == 0 {
        None
    } else if fs[0].name == name {
        Some(0)
    } else {
        match find_field(fs.drop_first(), name) {
            Some(k) => Some(k + 1),
            None => None,
        }
    }
}

/// The span of field `fname` of the first top-level message named `mname`.
pub open spec fn ref_span(ms: Seq<MessageView>, mname: Seq<u8>, fname: Seq<u8>) -> Option<Span> {
    match find_message(ms, mname) {
        Some(i) => match find_field(ms[i].fields, fname) {
            Some(j) => Some(ms[i].fields[j].span),
            None => None,
        },
        None => None,
    }
}

/// Rule 2: one critical finding per self reference.
pub open spec fn recursion_findings(f: FileView, refs: Seq<(Seq<u8>, Seq<u8>)>) -> Seq<FindingView>
    decreases refs.len(),
{
    if refs.len() == 0 {
        Seq::empty()
    } else {
        let (m, fl) = refs.last();
        recursion_findings(f, refs.drop_last()) + seq![
            finding(
                Severity::Critical,
                Some(RECURSION_PROTO2.spec_bytes()),
                recursive_text(m, fl),
                f,
                ref_span(f.messages, m, fl),
            ),
        ]
    }
}

/// A field typed `group` or `TYPE_GROUP`.
pub open spec fn is_group(t: Seq<u8>) -> bool {
    t == "group".spec_bytes() || t == "TYPE_GROUP".spec_bytes()
}

/// Rule 3: group-typed fields of message `m` among `fs`.
pub open spec fn group_findings(f: FileView, m: MessageView, fs: Seq<FieldView>) -> Seq<FindingView>
    decreases fs.len(),
{
    if fs.len() == 0 {
        Seq::empty()
    } else {
        let x = fs.last();
        group_findings(f, m, fs.drop_last()) + if is_group(x.ty) {
            seq![
                finding(
                    Severity::Critical,
                    Some(CVE_2024_7254.spec_bytes()),
                    group_text(m.name, x.name),
                    f,
                    Some(x.span),
                ),
            ]
        } else {
            Seq::empty()
        }
    }
}

/// Some top-level message is named `t`.
pub open spec fn names_message(ms: Seq<MessageView>, t: Seq<u8>) -> bool {
    exists|k: int| 0 <= k < ms.len() && ms[k].name == t
}

/// Rule 4: repeated fields of `m` among `fs` typed by a top-level message.
pub open spec fn nested_findings(f: FileView, m: MessageView, fs: Seq<FieldView>) -> Seq<FindingView>
    decreases fs.len(),
{
    if fs.len() == 0 {
        Seq::empty()
    } else {
        let x = fs.last();
        nested_findings(f, m, fs.drop_last()) + if x.repeated && names_message(f.messages, x.ty) {
            seq![finding(Severity::Warning, None, nested_text(m.name, x.name), f, Some(x.span))]
        } else {
            Seq::empty()
        }
    }
}

/// The repeated `bytes` fields among `fs`.
pub open spec fn repeated_bytes(fs: Seq<FieldView>) -> Seq<FieldView>
    decreases fs.len(),
{
    if fs.len() == 0 {
        Seq::empty()
    } else {
        repeated_bytes(fs.drop_last()) + if fs.last().ty == "bytes".spec_bytes()
            && fs.last().repeated {
            seq![fs.last()]
        } else {
            Seq::empty()
        }
    }
}

/// Rule 5: three or more repeated `bytes` fields in `m`.
pub open spec fn bytes_findings(f: FileView, m: MessageView) -> Seq<FindingView> {
    let bf = repeated_bytes(m.fields);
    if bf.len() >= 3 {
        seq![
            finding(
                Severity::Warning,
                Some(UNKNOWN_FIELD_OVERFLOW.spec_bytes()),
                bytes_text(m.name, bf.len()),
                f,
                Some(bf[0].span),
            ),
        ]
    } else {
        Seq::empty()
    }
}

/// Rules 3 to 5 for each of the messages in turn.
pub open spec fn message_findings(f: FileView, ms: Seq<MessageView>) -> Seq<FindingView>
    decreases ms.len(),
{
    if ms.len() == 0 {
        Seq::empty()
    } else {
        let m = ms.last();
        message_findings(f, ms.drop_last()) + group_findings(f, m, m.fields) + nested_findings(
            f,
            m,
            m.fields,
        ) + bytes_findings(f, m)
    }
}

/// Every finding of a file, in the order in which they are reported.
pub open spec fn findings_of(f: FileView) -> Seq<FindingView> {
    depth_findings(f) + recursion_findings(f, recursive_refs(f.messages)) + message_findings(
        f,
        f.messages,
    )
}


/// What [`find_message`] finds.
pub proof fn lemma_find_message(ms: Seq<MessageView>, name: Seq<u8>)
    ensures
        find_message(ms, name) matches Some(k) ==> 0 <= k < ms.len() && ms[k].name == name
            && forall|j: int| 0 <= j < k ==> ms[j].name != name,
        find_message(ms, name) is None ==> forall|j: int| 0 <= j < ms.len() ==> ms[j].name != name,
    decreases ms.len(),
{
    if ms.len() > 0 && ms[0].name != name {
        lemma_find_message(ms.drop_first(), name);
        assert forall|j: int| 1 <= j < ms.len() implies ms[j] == ms.drop_first()[j - 1] by {}
    }
}

/// What [`find_field`] finds.
pub proof fn lemma_find_field(fs: Seq<FieldView>, name: Seq<u8>)
    ensures
        find_field(fs, name) matches Some(k) ==> 0 <= k < fs.len() && fs[k].name == name
            && forall|j: int| 0 <= j < k ==> fs[j].name != name,
        find_field(fs, name) is None ==> forall|j: int| 0 <= j < fs.len() ==> fs[j].name != name,
    decreases fs.len(),
{
    if fs.len() > 0 && fs[0].name != name {
        lemma_find_field(fs.drop_first(), name);
        assert forall|j: int| 1 <= j < fs.len() implies fs[j] == fs.drop_first()[j - 1] by {}
    }
}

fn depth_findings_exec(proto: &ProtoFile, out: &mut Vec<Finding>)
    requires
        nesting_depth_of(proto@) <= usize::MAX,
    ensures
        findings_view(final(out)@) == findings_view(old(out)@) + depth_findings(proto@),
{
    let depth = max_nesting_depth(proto);
    let first_span = if proto.messages.len() > 0 {
        assert(proto@.messages[0] == proto.messages@[0]@);
        Some(proto.messages[0].span)
    } else {
        None
    };
    let ghost before = out@;
    if depth >= 5 {
        let mut msg = String::new();
        push_str(&mut msg, "Message nesting depth ");
        push_decimal(&mut msg, depth);
        push_str(
            &mut msg,
            " exceeds safe threshold (5). Vulnerable to stack overflow via deeply nested parsing.",
        );
        out.push(Finding::new(Severity::Critical, Some(RECURSION_PROTO2), msg, proto, first_span));
    } else if depth >= 3 {
        let mut msg = String::new();
        push_str(&mut msg, "Message nesting depth ");
        push_decimal(&mut msg, depth);
        push_str(
            &mut msg,
            " is moderate. Consider adding recursion depth limits in generated harnesses.",
        );
        out.push(Finding::new(Severity::Warning, None, msg, proto, first_span));
    }
    assert(findings_view(out@) =~= findings_view(before) + depth_findings(proto@));
}

/// The index of the first top-level message named `name`.
fn message_index(proto: &ProtoFile, name: &String) -> (r: Option<usize>)
    ensures
        match r {
            Some(k) => find_message(proto@.messages, sbytes(*name)) == Some(k as int) && k
                < proto.messages.len(),
            None => find_message(proto@.messages, sbytes(*name)) is None,
        },
{
    let ghost ms = proto@.messages;
    let mut i: usize = 0;
    while i < proto.messages.len()
        invariant
            i <= proto.messages.len(),
            ms == messages_view(proto.messages@),
            forall|j: int| 0 <= j < i ==> ms[j].name != sbytes(*name),
        decreases proto.messages.len() - i,
    {
        assert(ms[i as int] == proto.messages@[i as int]@);
        assert(ms[i as int].name == sbytes(proto.messages@[i as int].name));
        if same_text(&proto.messages[i].name, name) {
            proof {
                lemma_find_message(ms, sbytes(*name));
            }
            return Some(i);
        }
        i = i + 1;
    }
    proof {
        lemma_find_message(ms, sbytes(*name));
    }
    None
}

/// The index of the first field of `m` named `name`.
fn field_index(m: &ProtoMessage, name: &String) -> (r: Option<usize>)
    ensures
        match r {
            Some(k) => find_field(m@.fields, sbytes(*name)) == Some(k as int) && k < m.fields.len(),
            None => find_field(m@.fields, sbytes(*name)) is None,
        },
{
    let ghost fs = m@.fields;
    let mut i: usize = 0;
    while i < m.fields.len()
        invariant
            i <= m.fields.len(),
            fs == fields_view(m.fields@),
            forall|j: int| 0 <= j < i ==> fs[j].name != sbytes(*name),
        decreases m.fields.len() - i,
    {
        assert(fs[i as int] == m.fields@[i as int]@);
        assert(fs[i as int].name == sbytes(m.fields@[i as int].name));
        if same_text(&m.fields[i].name, name) {
            proof {
                lemma_find_field(fs, sbytes(*name));
            }
            return Some(i);
        }
        i = i + 1;
    }
    proof {
        lemma_find_field(fs, sbytes(*name));
    }
    None
}

fn recursion_findings_exec(proto: &ProtoFile, out: &mut Vec<Finding>)
    ensures
        findings_view(final(out)@) == findings_view(old(out)@) + recursion_findings(
            proto@,
            recursive_refs(proto@.messages),
        ),
{
    let refs = has_recursive_refs(proto);
    let ghost rv = pairs_view(refs@);
    let ghost base = findings_view(out@);
    let mut k: usize = 0;
    assert(rv.take(0) =~= Seq::<(Seq<u8>, Seq<u8>)>::empty());
    while k < refs.len()
        invariant
            k <= refs.len(),
            rv == pairs_view(refs@),
            rv == recursive_refs(proto@.messages),
            findings_view(out@) == base + recursion_findings(proto@, rv.take(k as int)),
        decreases refs.len() - k,
    {
        let (mname, fname) = &refs[k];
        assert(rv[k as int] == (sbytes(*mname), sbytes(*fname)));
        assert(rv.take(k + 1).drop_last() =~= rv.take(k as int));
        assert(rv.take(k + 1).last() == rv[k as int]);
        let ghost want = ref_span(proto@.messages, sbytes(*mname), sbytes(*fname));
        let span = match message_index(proto, mname) {
            Some(i) => {
                let m = &proto.messages[i];
                assert(proto@.messages[i as int] == m@);
                match field_index(m, fname) {
                    Some(j) => {
                        assert(m@.fields[j as int] == m.fields@[j as int]@);
                        assert(want == Some(m.fields@[j as int].span));
                        Some(m.fields[j].span)
                    },
                    None => {
                        assert(want is None);
                        None
                    },
                }
            },
            None => {
                assert(want is None);
                None
            },
        };
        assert(span == ref_span(proto@.messages, sbytes(*mname), sbytes(*fname)));
        let mut msg = String::new();
        push_str(&mut msg, "Recursive message reference: ");
        push_string(&mut msg, mname);
        push_str(&mut msg, ".");
        push_string(&mut msg, fname);
        push_str(&mut msg, " references itself. Vulnerable to unbounded recursion attacks.");
        let ghost before = out@;
        out.push(Finding::new(Severity::Critical, Some(RECURSION_PROTO2), msg, proto, span));
        assert(sbytes(msg) =~= recursive_text(sbytes(*mname), sbytes(*fname)));
        assert(findings_view(out@) =~= findings_view(before).push(out@.last()@));
        k = k + 1;
    }
    assert(rv.take(k as int) =~= rv);
}

fn is_group_exec(t: &String) -> (r: bool)
    ensures
        r == is_group(sbytes(*t)),
{
    str_eq(t.as_str(), "group") || str_eq(t.as_str(), "TYPE_GROUP")
}

fn group_findings_exec(proto: &ProtoFile, m: &ProtoMessage, out: &mut Vec<Finding>)
    ensures
        findings_view(final(out)@) == findings_view(old(out)@) + group_findings(
            proto@,
            m@,
            m@.fields,
        ),
{
    let ghost fs = m@.fields;
    let ghost base = findings_view(out@);
    let mut j: usize = 0;
    assert(fs.take(0) =~= Seq::<FieldView>::empty());
    while j < m.fields.len()
        invariant
            j <= m.fields.len(),
            fs == fields_view(m.fields@),
            fs == m@.fields,
            findings_view(out@) == base + group_findings(proto@, m@, fs.take(j as int)),
        decreases m.fields.len() - j,
    {
        let f = &m.fields[j];
        assert(fs[j as int] == f@);
        assert(fs.take(j + 1).drop_last() =~= fs.take(j as int));
        assert(fs.take(j + 1).last() == f@);
        let ghost before = out@;
        if is_group_exec(&f.ty) {
            let mut msg = String::new();
            push_str(&mut msg, "Field ");
            push_string(&mut msg, &m.name);
            push_str(&mut msg, ".");
            push_string(&mut msg, &f.name);
            push_str(
                &mut msg,
                " uses deprecated TYPE_GROUP. Known CVE surface (CVE-2024-7254 class). Replace with nested message.",
            );
            out.push(Finding::new(Severity::Critical, Some(CVE_2024_7254), msg, proto, Some(f.span)));
            assert(findings_view(out@) =~= findings_view(before).push(out@.last()@));
        }
        j = j + 1;
    }
    assert(fs.take(j as int) =~= fs);
}

/// Whether some top-level message is named `t`.
fn names_message_exec(proto: &ProtoFile, t: &String) -> (r: bool)
    ensures
        r == names_message(proto@.messages, sbytes(*t)),
{
    let ghost ms = proto@.messages;
    let mut i: usize = 0;
    while i < proto.messages.len()
        invariant
            i <= proto.messages.len(),
            ms == messages_view(proto.messages@),
            forall|j: int| 0 <= j < i ==> ms[j].name != sbytes(*t),
        decreases proto.messages.len() - i,
    {
        assert(ms[i as int] == proto.messages@[i as int]@);
        if same_text(&proto.messages[i].name, t) {
            return true;
        }
        i = i + 1;
    }
    false
}

fn nested_findings_exec(proto: &ProtoFile, m: &ProtoMessage, out: &mut Vec<Finding>)
    ensures
        findings_view(final(out)@) == findings_view(old(out)@) + nested_findings(
            proto@,
            m@,
            m@.fields,
        ),
{
    let ghost fs = m@.fields;
    let ghost base = findings_view(out@);
    let mut j: usize = 0;
    assert(fs.take(0) =~= Seq::<FieldView>::empty());
    while j < m.fields.len()
        invariant
            j <= m.fields.len(),
            fs == fields_view(m.fields@),
            fs == m@.fields,
            findings_view(out@) == base + nested_findings(proto@, m@, fs.take(j as int)),
        decreases m.fields.len() - j,
    {
        let f = &m.fields[j];
        assert(fs[j as int] == f@);
        assert(fs.take(j + 1).drop_last() =~= fs.take(j as int));
        assert(fs.take(j + 1).last() == f@);
        let ghost before = out@;
        if f.repeated && names_message_exec(proto, &f.ty) {
            let mut msg = String::new();
            push_str(&mut msg, "Repeated nested message: ");
            push_string(&mut msg, &m.name);
            push_str(&mut msg, ".");
            push_string(&mut msg, &f.name);
            push_str(&mut msg, ". Can cause memory exhaustion without size limits.");
            out.push(Finding::new(Severity::Warning, None, msg, proto, Some(f.span)));
            assert(findings_view(out@) =~= findings_view(before).push(out@.last()@));
        }
        j = j + 1;
    }
    assert(fs.take(j as int) =~= fs);
}

fn bytes_findings_exec(proto: &ProtoFile, m: &ProtoMessage, out: &mut Vec<Finding>)
    ensures
        findings_view(final(out)@) == findings_view(old(out)@) + bytes_findings(proto@, m@),
{
    let ghost fs = m@.fields;
    let mut count: usize = 0;
    let mut first: Option<Span> = None;
    let mut j: usize = 0;
    assert(fs.take(0) =~= Seq::<FieldView>::empty());
    while j < m.fields.len()
        invariant
            j <= m.fields.len(),
            fs == fields_view(m.fields@),
            fs == m@.fields,
            count == repeated_bytes(fs.take(j as int)).len(),
            count <= j,
            count == 0 <==> first is None,
            count > 0 ==> first == Some(repeated_bytes(fs.take(j as int))[0].span),
        decreases m.fields.len() - j,
    {
        let f = &m.fields[j];
        assert(fs[j as int] == f@);
        assert(fs.take(j + 1).drop_last() =~= fs.take(j as int));
        assert(fs.take(j + 1).last() == f@);
        if f.repeated && str_eq(f.ty.as_str(), "bytes") {
            if count == 0 {
                first = Some(f.span);
            }
            count = count + 1;
        }
        j = j + 1;
    }
    assert(fs.take(j as int) =~= fs);
    let ghost before = out@;
    if count >= 3 {
        let mut msg = String::new();
        push_string(&mut msg, &m.name);
        push_str(&mut msg, " has ");
        push_decimal(&mut msg, count);
        push_str(&mut msg, " repeated bytes fields. Potential for memory exhaustion via large payloads.");
        out.push(Finding::new(Severity::Warning, Some(UNKNOWN_FIELD_OVERFLOW), msg, proto, first));
    }
    assert(findings_view(out@) =~= findings_view(before) + bytes_findings(proto@, m@));
}

/// Scan a parsed `.proto` file, returning findings in a stable order.
pub fn scan(proto: &ProtoFile) -> (r: Vec<Finding>)
    requires
        nesting_depth_of(proto@) <= usize::MAX,
    ensures
        findings_view(r@) == findings_of(proto@),
{
    let mut findings: Vec<Finding> = Vec::new();
    depth_findings_exec(proto, &mut findings);
    recursion_findings_exec(proto, &mut findings);
    let ghost ms = proto@.messages;
    let ghost base = findings_view(findings@);
    assert(base =~= depth_findings(proto@) + recursion_findings(proto@, recursive_refs(ms)));
    let mut i: usize = 0;
    assert(ms.take(0) =~= Seq::<MessageView>::empty());
    while i < proto.messages.len()
        invariant
            i <= proto.messages.len(),
            ms == messages_view(proto.messages@),
            ms == proto@.messages,
            findings_view(findings@) == base + message_findings(proto@, ms.take(i as int)),
        decreases proto.messages.len() - i,
    {
        let m = &proto.messages[i];
        assert(ms[i as int] == m@);
        assert(ms.take(i + 1).drop_last() =~= ms.take(i as int));
        assert(ms.take(i + 1).last() == m@);
        group_findings_exec(proto, m, &mut findings);
        nested_findings_exec(proto, m, &mut findings);
        bytes_findings_exec(proto, m, &mut findings);
        i = i + 1;
    }
    assert(ms.take(i as int) =~= ms);
    findings
}

/// Whether any finding is critical (used to drive the CLI exit code).
pub fn has_critical(findings: &[Finding]) -> (r: bool)
    ensures
        r == exists|i: int| 0 <= i < findings@.len() && findings@[i].severity == Severity::Critical,
{
    let mut i: usize = 0;
    while i < findings.len()
        invariant
            i <= findings.len(),
            forall|j: int| 0 <= j < i ==> findings@[j].severity != Severity::Critical,
        decreases findings.len() - i,
    {
        if findings[i].severity == Severity::Critical {
            return true;
        }
        i = i + 1;
    }
    false
}


/// The help line of a finding: the title of its pattern, followed by
/// ` (fixed in <versions>)` when the pattern has a fix.
pub open spec fn help_of(pattern_id: Option<Seq<u8>>) -> Option<Seq<u8>> {
    match pattern_id {
        Some(id) => match first_with_id(catalog(), id) {
            Some(p) => match p.fixed_in {
                Some(fix) => Some(p.title + " (fixed in ".spec_bytes() + fix + ")".spec_bytes()),
                None => Some(p.title),
            },
            None => None,
        },
        None => None,
    }
}

impl Finding {
    /// The help line shown under the finding's diagnostic.
    pub fn help(&self) -> (r: Option<String>)
        ensures
            match r {
                Some(h) => help_of(self@.pattern_id) == Some(sbytes(h)),
                None => help_of(self@.pattern_id) is None,
            },
    {
        match self.pattern_id {
            Some(id) => match get_pattern_by_id(id) {
                Some(p) => {
                    let mut h = String::new();
                    push_str(&mut h, p.title);
                    match p.fixed_in {
                        Some(fix) => {
                            push_str(&mut h, " (fixed in ");
                            push_str(&mut h, fix);
                            push_str(&mut h, ")");
                        },
                        None => {},
                    }
                    assert(opt_pattern_view(Some(p)) == Some(p@));
                    Some(h)
                },
                None => None,
            },
            None => None,
        }
    }
}


/// Some finding is critical.
pub open spec fn any_critical(s: Seq<FindingView>) -> bool {
    exists|i: int| 0 <= i < s.len() && (#[trigger] s[i]).severity == Severity::Critical
}

/// What a scan over several files has seen so far: a critical finding, and
/// any finding at all.
#[derive(Debug, Clone, Copy, PartialEq, Eq, Structural)]
pub struct ScanTally {
    pub critical: bool,
    pub found: bool,
}

impl ScanTally {
    /// Nothing seen yet.
    pub fn new() -> (r: ScanTally)
        ensures
            r == (ScanTally { critical: false, found: false }),
    {
        ScanTally { critical: false, found: false }
    }
}

/// The tally after one more file with findings `s`.
pub open spec fn tally_next(t: ScanTally, s: Seq<FindingView>) -> ScanTally {
    ScanTally { critical: t.critical || any_critical(s), found: t.found || s.len() > 0 }
}

/// The tally after files whose findings are `runs`, in order, from nothing.
pub open spec fn tally_of(runs: Seq<Seq<FindingView>>) -> ScanTally
    decreases runs.len(),
{
    if runs.len() == 0 {
        ScanTally { critical: false, found: false }
    } else {
        tally_next(tally_of(runs.drop_last()), runs.last())
    }
}

/// The exit code a tally gives.
pub open spec fn exit_code_of(t: ScanTally) -> u8 {
    if t.critical {
        1u8
    } else {
        0u8
    }
}

/// Adds one file's findings to the tally.
pub fn tally_step(t: ScanTally, findings: &[Finding]) -> (r: ScanTally)
    ensures
        r == (ScanTally {
            critical: t.critical || any_critical(findings_view(findings@)),
            found: t.found || findings@.len() > 0,
        }),
        r == tally_next(t, findings_view(findings@)),
{
    let c = has_critical(findings);
    proof {
        let v = findings_view(findings@);
        if c {
            let i = choose|i: int| 0 <= i < findings@.len() && findings@[i].severity == Severity::Critical;
            assert(v[i].severity == Severity::Critical);
        }
        if any_critical(v) {
            let i = choose|i: int| 0 <= i < v.len() && (#[trigger] v[i]).severity == Severity::Critical;
            assert(findings@[i].severity == Severity::Critical);
        }
    }
    ScanTally { critical: t.critical || c, found: t.found || findings.len() > 0 }
}

/// The exit code of a scan: 1 when any finding was critical, else 0.
pub fn scan_exit_code(t: ScanTally) -> (r: u8)
    ensures
        r == (if t.critical { 1u8 } else { 0u8 }),
        r == exit_code_of(t),
{
    if t.critical {
        1
    } else {
        0
    }
}

/// Whether to print the notice that nothing was found: only for text
/// output, and only when no file had a finding.
pub fn clean_notice_due(t: ScanTally, json: bool) -> (r: bool)
    ensures
        r == (!json && !t.found),
{
    !json && !t.found
}

/// A whole scan run: tallying the findings of the files in turn, from
/// nothing, gives exit code 1 exactly when some file has a critical finding
/// (else 0), and the clean notice exactly when the output is text and no
/// file has any finding.
pub proof fn law_scan_run(runs: Seq<Seq<FindingView>>, json: bool)
    ensures
        exit_code_of(tally_of(runs)) == (if exists|k: int| 0 <= k < runs.len() && any_critical(#[trigger] runs[k]) {
            1u8
        } else {
            0u8
        }),
        (!json && !tally_of(runs).found) == (!json && forall|k: int| 0 <= k < runs.len() ==> (#[trigger] runs[k]).len() == 0),
    decreases runs.len(),
{
    if runs.len() > 0 {
        let p = runs.drop_last();
        law_scan_run(p, json);
        assert(runs.last() == runs[runs.len() - 1]);
        if exists|k: int| 0 <= k < p.len() && any_critical(#[trigger] p[k]) {
            let k = choose|k: int| 0 <= k < p.len() && any_critical(#[trigger] p[k]);
            assert(runs[k] == p[k]);
        }
        if exists|k: int| 0 <= k < runs.len() && any_critical(#[trigger] runs[k]) {
            let k = choose|k: int| 0 <= k < runs.len() && any_critical(#[trigger] runs[k]);
            if k < p.len() {
                assert(runs[k] == p[k]);
            }
        }
        if forall|k: int| 0 <= k < p.len() ==> (#[trigger] p[k]).len() == 0 {
            if runs.last().len() == 0 {
                assert forall|k: int| 0 <= k < runs.len() implies (#[trigger] runs[k]).len() == 0 by {
                    if k < p.len() {
                        assert(runs[k] == p[k]);
                    }
                }
            }
        } else {
            let k = choose|k: int| 0 <= k < p.len() && (#[trigger] p[k]).len() != 0;
            assert(runs[k] == p[k]);
        }
    }
}

/// The tally of a run of files, each scanned: exit code 1 exactly when one
/// of the files has a nesting metric of 5 or more, a self-referencing
/// top-level message, or a `group` field.
pub proof fn law_scan_run_of_files(files: Seq<FileView>)
    ensures
        exit_code_of(tally_of(files.map_values(|f: FileView| findings_of(f)))) == (if exists|k: int|
            0 <= k < files.len() && (nesting_depth_of(#[trigger] files[k]) >= 5 || recursive_refs(
                files[k].messages,
            ).len() > 0 || has_group_field(files[k].messages)) {
            1u8
        } else {
            0u8
        }),
{
    let runs = files.map_values(|f: FileView| findings_of(f));
    law_scan_run(runs, false);
    assert forall|k: int| 0 <= k < files.len() implies (any_critical(#[trigger] runs[k]) == (
    nesting_depth_of(files[k]) >= 5 || recursive_refs(files[k].messages).len() > 0 || has_group_field(
        files[k].messages,
    ))) by {
        law_critical_iff(files[k]);
    }
    if exists|k: int| 0 <= k < runs.len() && any_critical(#[trigger] runs[k]) {
        let k = choose|k: int| 0 <= k < runs.len() && any_critical(#[trigger] runs[k]);
        assert(nesting_depth_of(files[k]) >= 5 || recursive_refs(files[k].messages).len() > 0
            || has_group_field(files[k].messages));
    }
    if exists|k: int|
        0 <= k < files.len() && (nesting_depth_of(#[trigger] files[k]) >= 5 || recursive_refs(
            files[k].messages,
        ).len() > 0 || has_group_field(files[k].messages)) {
        let k = choose|k: int|
            0 <= k < files.len() && (nesting_depth_of(#[trigger] files[k]) >= 5 || recursive_refs(
                files[k].messages,
            ).len() > 0 || has_group_field(files[k].messages));
        assert(any_critical(runs[k]));
    }
}

/// Some top-level message has a field typed `group` or `TYPE_GROUP`.
pub open spec fn has_group_field(ms: Seq<MessageView>) -> bool {
    exists|k: int, j: int|
        0 <= k < ms.len() && 0 <= j < ms[k].fields.len() && is_group(#[trigger] ms[k].fields[j].ty)
}

proof fn lemma_any_critical_concat(a: Seq<FindingView>, b: Seq<FindingView>)
    ensures
        any_critical(a + b) == (any_critical(a) || any_critical(b)),
{
    let c = a + b;
    if any_critical(c) {
        let i = choose|i: int| 0 <= i < c.len() && (#[trigger] c[i]).severity == Severity::Critical;
        if i < a.len() {
            assert(c[i] == a[i]);
        } else {
            assert(c[i] == b[i - a.len()]);
        }
    }
    if any_critical(a) {
        let i = choose|i: int| 0 <= i < a.len() && (#[trigger] a[i]).severity == Severity::Critical;
        assert(c[i] == a[i]);
    }
    if any_critical(b) {
        let i = choose|i: int| 0 <= i < b.len() && (#[trigger] b[i]).severity == Severity::Critical;
        assert(c[a.len() + i] == b[i]);
    }
}

proof fn lemma_recursion_findings(f: FileView, refs: Seq<(Seq<u8>, Seq<u8>)>)
    ensures
        recursion_findings(f, refs).len() == refs.len(),
        any_critical(recursion_findings(f, refs)) == (refs.len() > 0),
    decreases refs.len(),
{
    if refs.len() > 0 {
        lemma_recursion_findings(f, refs.drop_last());
        let r = recursion_findings(f, refs);
        assert(r[r.len() - 1].severity == Severity::Critical);
    }
}

proof fn lemma_group_findings(f: FileView, m: MessageView, fs: Seq<FieldView>)
    ensures
        any_critical(group_findings(f, m, fs)) == exists|j: int|
            0 <= j < fs.len() && is_group(#[trigger] fs[j].ty),
    decreases fs.len(),
{
    if fs.len() > 0 {
        let x = fs.last();
        lemma_group_findings(f, m, fs.drop_last());
        let tail: Seq<FindingView> = if is_group(x.ty) {
            seq![finding(Severity::Critical, Some(CVE_2024_7254.spec_bytes()), group_text(m.name, x.name), f, Some(x.span))]
        } else {
            Seq::empty()
        };
        lemma_any_critical_concat(group_findings(f, m, fs.drop_last()), tail);
        if is_group(x.ty) {
            assert(tail[0].severity == Severity::Critical);
        }
        if exists|j: int| 0 <= j < fs.len() && is_group(#[trigger] fs[j].ty) {
            let j = choose|j: int| 0 <= j < fs.len() && is_group(#[trigger] fs[j].ty);
            if j < fs.len() - 1 {
                assert(fs.drop_last()[j] == fs[j]);
            }
        }
        if exists|j: int| 0 <= j < fs.len() - 1 && is_group(#[trigger] fs.drop_last()[j].ty) {
            let j = choose|j: int| 0 <= j < fs.len() - 1 && is_group(#[trigger] fs.drop_last()[j].ty);
            assert(fs[j] == fs.drop_last()[j]);
        }
    }
}

proof fn lemma_nested_findings(f: FileView, m: MessageView, fs: Seq<FieldView>)
    ensures
        !any_critical(nested_findings(f, m, fs)),
    decreases fs.len(),
{
    if fs.len() > 0 {
        lemma_nested_findings(f, m, fs.drop_last());
        let x = fs.last();
        let tail: Seq<FindingView> = if x.repeated && names_message(f.messages, x.ty) {
            seq![finding(Severity::Warning, None, nested_text(m.name, x.name), f, Some(x.span))]
        } else {
            Seq::empty()
        };
        lemma_any_critical_concat(nested_findings(f, m, fs.drop_last()), tail);
    }
}

proof fn lemma_message_findings(f: FileView, ms: Seq<MessageView>)
    ensures
        any_critical(message_findings(f, ms)) == has_group_field(ms),
    decreases ms.len(),
{
    if ms.len() > 0 {
        let m = ms.last();
        let prev = ms.drop_last();
        lemma_message_findings(f, prev);
        lemma_group_findings(f, m, m.fields);
        lemma_nested_findings(f, m, m.fields);
        let a = message_findings(f, prev);
        let g = group_findings(f, m, m.fields);
        let n = nested_findings(f, m, m.fields);
        let b = bytes_findings(f, m);
        assert(!any_critical(b));
        lemma_any_critical_concat(a, g);
        lemma_any_critical_concat(a + g, n);
        lemma_any_critical_concat(a + g + n, b);
        if has_group_field(ms) {
            let (k, j) = choose|k: int, j: int|
                0 <= k < ms.len() && 0 <= j < ms[k].fields.len() && is_group(#[trigger] ms[k].fields[j].ty);
            if k < ms.len() - 1 {
                assert(prev[k] == ms[k]);
                assert(is_group(prev[k].fields[j].ty));
            } else {
                assert(is_group(m.fields[j].ty));
            }
        }
        if has_group_field(prev) {
            let (k, j) = choose|k: int, j: int|
                0 <= k < prev.len() && 0 <= j < prev[k].fields.len() && is_group(#[trigger] prev[k].fields[j].ty);
            assert(ms[k] == prev[k]);
            assert(is_group(ms[k].fields[j].ty));
        }
        if exists|j: int| 0 <= j < m.fields.len() && is_group(#[trigger] m.fields[j].ty) {
            let j = choose|j: int| 0 <= j < m.fields.len() && is_group(#[trigger] m.fields[j].ty);
            assert(ms[ms.len() - 1] == m);
            assert(is_group(ms[ms.len() - 1].fields[j].ty));
        }
    }
}

/// A scan reports a critical finding exactly when the nesting metric is 5
/// or more, some top-level message references itself, or some top-level
/// message has a `group` field.
pub proof fn law_critical_iff(f: FileView)
    ensures
        any_critical(findings_of(f)) == (nesting_depth_of(f) >= 5 || recursive_refs(f.messages).len()
            > 0 || has_group_field(f.messages)),
{
    let d = depth_findings(f);
    let r = recursion_findings(f, recursive_refs(f.messages));
    let m = message_findings(f, f.messages);
    lemma_recursion_findings(f, recursive_refs(f.messages));
    lemma_message_findings(f, f.messages);
    lemma_any_critical_concat(d, r);
    lemma_any_critical_concat(d + r, m);
    if nesting_depth_of(f) >= 5 {
        assert(d[0].severity == Severity::Critical);
    }
}

/// A finding carries the path of `f` and, when it names a pattern, the
/// pattern is in the catalog.
pub open spec fn attributed(x: FindingView, f: FileView) -> bool {
    &&& x.file_path == f.file_path
    &&& (x.pattern_id matches Some(id) ==> first_with_id(catalog(), id) is Some)
}

/// Every finding of `s` is [`attributed`].
pub open spec fn all_about(s: Seq<FindingView>, f: FileView) -> bool {
    forall|i: int| 0 <= i < s.len() ==> attributed(#[trigger] s[i], f)
}

proof fn lemma_scanner_ids()
    ensures
        first_with_id(catalog(), CVE_2024_7254.spec_bytes()) is Some,
        first_with_id(catalog(), RECURSION_PROTO2.spec_bytes()) is Some,
        first_with_id(catalog(), UNKNOWN_FIELD_OVERFLOW.spec_bytes()) is Some,
{
    crate::patterns::law_lookup_by_id(0);
    crate::patterns::law_lookup_by_id(2);
    crate::patterns::law_lookup_by_id(3);
}

proof fn lemma_all_about_concat(a: Seq<FindingView>, b: Seq<FindingView>, f: FileView)
    requires
        all_about(a, f),
        all_about(b, f),
    ensures
        all_about(a + b, f),
{
    assert forall|i: int| 0 <= i < (a + b).len() implies attributed(#[trigger] (a + b)[i], f) by {
        if i < a.len() {
            assert((a + b)[i] == a[i]);
        } else {
            assert((a + b)[i] == b[i - a.len()]);
        }
    }
}

proof fn lemma_about_parts(f: FileView, refs: Seq<(Seq<u8>, Seq<u8>)>, m: MessageView, fs: Seq<FieldView>)
    ensures
        all_about(recursion_findings(f, refs), f),
        all_about(group_findings(f, m, fs), f),
        all_about(nested_findings(f, m, fs), f),
        all_about(bytes_findings(f, m), f),
    decreases refs.len() + fs.len(),
{
    if refs.len() > 0 {
        lemma_about_parts(f, refs.drop_last(), m, fs);
        let r = recursion_findings(f, refs);
        let rp = recursion_findings(f, refs.drop_last());
        lemma_scanner_ids();
        assert forall|i: int| 0 <= i < r.len() implies attributed(#[trigger] r[i], f) by {
            if i < rp.len() {
                assert(r[i] == rp[i]);
            }
        }
    }
    lemma_scanner_ids();
    if fs.len() > 0 {
        lemma_about_parts(f, refs, m, fs.drop_last());
        let g = group_findings(f, m, fs);
        let gp = group_findings(f, m, fs.drop_last());
        lemma_all_about_concat(gp, g.skip(gp.len() as int), f);
        assert(g =~= gp + g.skip(gp.len() as int));
        let n = nested_findings(f, m, fs);
        let np = nested_findings(f, m, fs.drop_last());
        lemma_all_about_concat(np, n.skip(np.len() as int), f);
        assert(n =~= np + n.skip(np.len() as int));
    }
}

proof fn lemma_message_findings_about(f: FileView, ms: Seq<MessageView>)
    ensures
        all_about(message_findings(f, ms), f),
    decreases ms.len(),
{
    if ms.len() > 0 {
        let m = ms.last();
        lemma_message_findings_about(f, ms.drop_last());
        lemma_about_parts(f, Seq::empty(), m, m.fields);
        let a = message_findings(f, ms.drop_last());
        let g = group_findings(f, m, m.fields);
        let n = nested_findings(f, m, m.fields);
        lemma_all_about_concat(a, g, f);
        lemma_all_about_concat(a + g, n, f);
        lemma_all_about_concat(a + g + n, bytes_findings(f, m), f);
    }
}

/// Every finding of a scan carries the scanned file's path, and every
/// pattern a finding names is in the catalog.
pub proof fn law_findings_attributed(f: FileView)
    ensures
        all_about(findings_of(f), f),
{
    lemma_about_parts(f, recursive_refs(f.messages), MessageView { name: Seq::empty(), fields: Seq::empty(), nested: Seq::empty(), nesting_depth: 0, span: Span { start: 0, end: 0 } }, Seq::empty());
    lemma_message_findings_about(f, f.messages);
    let d = depth_findings(f);
    lemma_scanner_ids();
    assert(all_about(d, f));
    lemma_all_about_concat(d, recursion_findings(f, recursive_refs(f.messages)), f);
    lemma_all_about_concat(d + recursion_findings(f, recursive_refs(f.messages)), message_findings(f, f.messages), f);
}

/// A finding's span, when it has one, lies within `src`.
pub open spec fn located(x: FindingView, src: Seq<u8>) -> bool {
    x.span matches Some(s) ==> span_within(src, s)
}

/// Every finding of `s` is [`located`] in `src`.
pub open spec fn all_located(s: Seq<FindingView>, src: Seq<u8>) -> bool {
    forall|i: int| 0 <= i < s.len() ==> located(#[trigger] s[i], src)
}

/// Every field's span lies within `src`.
pub open spec fn fields_within(fs: Seq<FieldView>, src: Seq<u8>) -> bool {
    forall|j: int| 0 <= j < fs.len() ==> span_within(src, #[trigger] fs[j].span)
}

proof fn lemma_all_located_concat(a: Seq<FindingView>, b: Seq<FindingView>, src: Seq<u8>)
    requires
        all_located(a, src),
        all_located(b, src),
    ensures
        all_located(a + b, src),
{
    assert forall|i: int| 0 <= i < (a + b).len() implies located(#[trigger] (a + b)[i], src) by {
        if i < a.len() {
            assert((a + b)[i] == a[i]);
        } else {
            assert((a + b)[i] == b[i - a.len()]);
        }
    }
}

proof fn lemma_repeated_bytes_within(fs: Seq<FieldView>, src: Seq<u8>)
    requires
        fields_within(fs, src),
    ensures
        fields_within(repeated_bytes(fs), src),
    decreases fs.len(),
{
    if fs.len() > 0 {
        let p = fs.drop_last();
        assert forall|j: int| 0 <= j < p.len() implies span_within(src, #[trigger] p[j].span) by {
            assert(p[j] == fs[j]);
        }
        lemma_repeated_bytes_within(p, src);
        let r = repeated_bytes(fs);
        let rp = repeated_bytes(p);
        assert forall|j: int| 0 <= j < r.len() implies span_within(src, #[trigger] r[j].span) by {
            if j < rp.len() {
                assert(r[j] == rp[j]);
            } else {
                assert(r[j] == fs.last());
                assert(fs.last() == fs[fs.len() - 1]);
            }
        }
    }
}

proof fn lemma_field_findings_located(f: FileView, m: MessageView, fs: Seq<FieldView>, src: Seq<u8>)
    requires
        fields_within(fs, src),
    ensures
        all_located(group_findings(f, m, fs), src),
        all_located(nested_findings(f, m, fs), src),
    decreases fs.len(),
{
    if fs.len() > 0 {
        let p = fs.drop_last();
        assert forall|j: int| 0 <= j < p.len() implies span_within(src, #[trigger] p[j].span) by {
            assert(p[j] == fs[j]);
        }
        lemma_field_findings_located(f, m, p, src);
        assert(fs.last() == fs[fs.len() - 1]);
        assert(span_within(src, fs.last().span));
        let g = group_findings(f, m, fs);
        let gp = group_findings(f, m, p);
        assert forall|i: int| 0 <= i < g.len() implies located(#[trigger] g[i], src) by {
            if i < gp.len() {
                assert(g[i] == gp[i]);
            }
        }
        let n = nested_findings(f, m, fs);
        let np = nested_findings(f, m, p);
        assert forall|i: int| 0 <= i < n.len() implies located(#[trigger] n[i], src) by {
            if i < np.len() {
                assert(n[i] == np[i]);
            }
        }
    }
}

proof fn lemma_message_findings_located(f: FileView, ms: Seq<MessageView>, src: Seq<u8>)
    requires
        forall|k: int| 0 <= k < ms.len() ==> fields_within(#[trigger] ms[k].fields, src),
    ensures
        all_located(message_findings(f, ms), src),
    decreases ms.len(),
{
    if ms.len() > 0 {
        let m = ms.last();
        let p = ms.drop_last();
        assert forall|k: int| 0 <= k < p.len() implies fields_within(#[trigger] p[k].fields, src) by {
            assert(p[k] == ms[k]);
        }
        lemma_message_findings_located(f, p, src);
        assert(m == ms[ms.len() - 1]);
        lemma_field_findings_located(f, m, m.fields, src);
        lemma_repeated_bytes_within(m.fields, src);
        let a = message_findings(f, p);
        let g = group_findings(f, m, m.fields);
        let n = nested_findings(f, m, m.fields);
        let b = bytes_findings(f, m);
        assert(all_located(b, src)) by {
            if repeated_bytes(m.fields).len() >= 3 {
                assert(span_within(src, repeated_bytes(m.fields)[0].span));
            }
        }
        lemma_all_located_concat(a, g, src);
        lemma_all_located_concat(a + g, n, src);
        lemma_all_located_concat(a + g + n, b, src);
    }
}

proof fn lemma_recursion_findings_located(f: FileView, refs: Seq<(Seq<u8>, Seq<u8>)>, src: Seq<u8>)
    requires
        forall|k: int| 0 <= k < f.messages.len() ==> fields_within(#[trigger] f.messages[k].fields, src),
    ensures
        all_located(recursion_findings(f, refs), src),
    decreases refs.len(),
{
    if refs.len() > 0 {
        lemma_recursion_findings_located(f, refs.drop_last(), src);
        let (m, fl) = refs.last();
        lemma_find_message(f.messages, m);
        match find_message(f.messages, m) {
            Some(i) => {
                lemma_find_field(f.messages[i].fields, fl);
                assert(fields_within(f.messages[i].fields, src));
            },
            None => {},
        }
        let r = recursion_findings(f, refs);
        let rp = recursion_findings(f, refs.drop_last());
        assert forall|i: int| 0 <= i < r.len() implies located(#[trigger] r[i], src) by {
            if i < rp.len() {
                assert(r[i] == rp[i]);
            }
        }
    }
}

/// Every span a scan reports points into the scanned source: at the first
/// message's name or at a field declaration of a top-level message.
pub proof fn law_finding_spans_in_source(src: Seq<u8>, path: Seq<u8>)
    requires
        src.len() <= usize::MAX,
    ensures
        all_located(findings_of(parsed(src, path)), src),
{
    let f = parsed(src, path);
    lemma_top_level_spans(src, path);
    assert forall|k: int| 0 <= k < f.messages.len() implies fields_within(
        #[trigger] f.messages[k].fields,
        src,
    ) by {
        assert(message_spans_ok(src, f.messages[k]));
    }
    let d = depth_findings(f);
    assert(all_located(d, src)) by {
        if f.messages.len() > 0 {
            assert(message_spans_ok(src, f.messages[0]));
        }
    }
    let r = recursion_findings(f, recursive_refs(f.messages));
    lemma_recursion_findings_located(f, recursive_refs(f.messages), src);
    lemma_message_findings_located(f, f.messages, src);
    lemma_all_located_concat(d, r, src);
    lemma_all_located_concat(d + r, message_findings(f, f.messages), src);
}

/// No finding of `s` has severity `Info`.
pub open spec fn none_info(s: Seq<FindingView>) -> bool {
    forall|i: int| 0 <= i < s.len() ==> (#[trigger] s[i]).severity != Severity::Info
}

proof fn lemma_none_info_concat(a: Seq<FindingView>, b: Seq<FindingView>)
    requires
        none_info(a),
        none_info(b),
    ensures
        none_info(a + b),
{
    assert forall|i: int| 0 <= i < (a + b).len() implies (#[trigger] (a + b)[i]).severity
        != Severity::Info by {
        if i < a.len() {
            assert((a + b)[i] == a[i]);
        } else {
            assert((a + b)[i] == b[i - a.len()]);
        }
    }
}

proof fn lemma_parts_none_info(f: FileView, refs: Seq<(Seq<u8>, Seq<u8>)>, m: MessageView, fs: Seq<FieldView>)
    ensures
        none_info(recursion_findings(f, refs)),
        none_info(group_findings(f, m, fs)),
        none_info(nested_findings(f, m, fs)),
        none_info(bytes_findings(f, m)),
    decreases refs.len() + fs.len(),
{
    if refs.len() > 0 {
        lemma_parts_none_info(f, refs.drop_last(), m, fs);
        let r = recursion_findings(f, refs);
        let rp = recursion_findings(f, refs.drop_last());
        assert forall|i: int| 0 <= i < r.len() implies (#[trigger] r[i]).severity != Severity::Info by {
            if i < rp.len() {
                assert(r[i] == rp[i]);
            }
        }
    }
    if fs.len() > 0 {
        lemma_parts_none_info(f, refs, m, fs.drop_last());
        let g = group_findings(f, m, fs);
        let gp = group_findings(f, m, fs.drop_last());
        assert forall|i: int| 0 <= i < g.len() implies (#[trigger] g[i]).severity != Severity::Info by {
            if i < gp.len() {
                assert(g[i] == gp[i]);
            }
        }
        let n = nested_findings(f, m, fs);
        let np = nested_findings(f, m, fs.drop_last());
        assert forall|i: int| 0 <= i < n.len() implies (#[trigger] n[i]).severity != Severity::Info by {
            if i < np.len() {
                assert(n[i] == np[i]);
            }
        }
    }
}

proof fn lemma_message_findings_none_info(f: FileView, ms: Seq<MessageView>)
    ensures
        none_info(message_findings(f, ms)),
    decreases ms.len(),
{
    if ms.len() > 0 {
        let m = ms.last();
        lemma_message_findings_none_info(f, ms.drop_last());
        lemma_parts_none_info(f, Seq::empty(), m, m.fields);
        let a = message_findings(f, ms.drop_last());
        let g = group_findings(f, m, m.fields);
        let n = nested_findings(f, m, m.fields);
        lemma_none_info_concat(a, g);
        lemma_none_info_concat(a + g, n);
        lemma_none_info_concat(a + g + n, bytes_findings(f, m));
    }
}

/// A scan reports only critical findings and warnings, never `Info`.
pub proof fn law_no_info_findings(f: FileView)
    ensures
        none_info(findings_of(f)),
{
    let d = depth_findings(f);
    let r = recursion_findings(f, recursive_refs(f.messages));
    lemma_parts_none_info(f, recursive_refs(f.messages), f.messages[0], Seq::empty());
    lemma_message_findings_none_info(f, f.messages);
    assert(none_info(d));
    lemma_none_info_concat(d, r);
    lemma_none_info_concat(d + r, message_findings(f, f.messages));
}

proof fn lemma_nested_finding_in(f: FileView, m: MessageView, fs: Seq<FieldView>, j: int)
    requires
        0 <= j < fs.len(),
        fs[j].repeated,
        names_message(f.messages, fs[j].ty),
    ensures
        nested_findings(f, m, fs).contains(
            finding(Severity::Warning, None, nested_text(m.name, fs[j].name), f, Some(fs[j].span)),
        ),
    decreases fs.len(),
{
    let p = fs.drop_last();
    let n = nested_findings(f, m, fs);
    let np = nested_findings(f, m, p);
    let w = finding(Severity::Warning, None, nested_text(m.name, fs[j].name), f, Some(fs[j].span));
    if j < p.len() {
        assert(p[j] == fs[j]);
        lemma_nested_finding_in(f, m, p, j);
        let k = choose|k: int| 0 <= k < np.len() && np[k] == w;
        assert(n[k] == np[k]);
    } else {
        assert(fs.last() == fs[j]);
        assert(n[np.len() as int] == w);
    }
}

proof fn lemma_message_finding_in(f: FileView, ms: Seq<MessageView>, i: int, w: FindingView)
    requires
        0 <= i < ms.len(),
        nested_findings(f, ms[i], ms[i].fields).contains(w),
    ensures
        message_findings(f, ms).contains(w),
    decreases ms.len(),
{
    let p = ms.drop_last();
    let m = ms.last();
    let a = message_findings(f, p);
    let g = group_findings(f, m, m.fields);
    let n = nested_findings(f, m, m.fields);
    let b = bytes_findings(f, m);
    assert(message_findings(f, ms) == a + g + n + b);
    if i < p.len() {
        assert(p[i] == ms[i]);
        lemma_message_finding_in(f, p, i, w);
        let k = choose|k: int| 0 <= k < a.len() && a[k] == w;
        assert((a + g + n + b)[k] == a[k]);
    } else {
        assert(m == ms[i]);
        let k = choose|k: int| 0 <= k < n.len() && n[k] == w;
        assert((a + g + n + b)[a.len() + g.len() + k] == n[k]);
    }
}

/// Every repeated field of a top-level message whose type names any
/// top-level message (the first one too) is reported: the scan holds the
/// warning `Repeated nested message: <message>.<field>. ...` at the field.
pub proof fn law_repeated_nested_reported(f: FileView, i: int, j: int, k: int)
    requires
        0 <= i < f.messages.len(),
        0 <= j < f.messages[i].fields.len(),
        0 <= k < f.messages.len(),
        f.messages[i].fields[j].repeated,
        f.messages[i].fields[j].ty == f.messages[k].name,
    ensures
        findings_of(f).contains(
            finding(
                Severity::Warning,
                None,
                nested_text(f.messages[i].name, f.messages[i].fields[j].name),
                f,
                Some(f.messages[i].fields[j].span),
            ),
        ),
{
    let m = f.messages[i];
    let x = m.fields[j];
    assert(f.messages[k].name == x.ty);
    assert(names_message(f.messages, x.ty));
    lemma_nested_finding_in(f, m, m.fields, j);
    let w = finding(Severity::Warning, None, nested_text(m.name, x.name), f, Some(x.span));
    lemma_message_finding_in(f, f.messages, i, w);
    let d = depth_findings(f);
    let r = recursion_findings(f, recursive_refs(f.messages));
    let mf = message_findings(f, f.messages);
    let q = choose|q: int| 0 <= q < mf.len() && mf[q] == w;
    assert(findings_of(f) == d + r + mf);
    assert((d + r + mf)[d.len() + r.len() + q] == mf[q]);
}

/// Scanning is deterministic: equal files give equal findings.
pub proof fn law_scan_deterministic(a: FileView, b: FileView)
    requires
        a == b,
    ensures
        findings_of(a) == findings_of(b),
{
}

} // verus!
