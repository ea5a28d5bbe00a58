//! Data model for a parsed `.proto` file.
//!
//! Every message and field carries a byte [`Span`] into the parsed source
//! so that findings can point at the exact offending construct. Each type has
//! a view in which all text is given by its UTF-8 bytes.
use vstd::prelude::*;
use vstd::string::*;
use crate::text::sbytes;

verus! {

broadcast use vstd::seq::group_seq_axioms;

/// A half-open byte range `[start, end)` into the `.proto` source text.
#[derive(Debug, Clone, Copy, PartialEq, Eq, Structural)]
pub struct Span {
    pub start: usize,
    pub end: usize,
}

impl Span {
    pub fn new(start: usize, end: usize) -> (r: Self)
        ensures
            r == (Span { start, end }),
    {
        Span { start, end }
    }

    /// Length of the span in bytes (0 when `end < start`).
    pub open spec fn spec_len(&self) -> nat {
        if self.end >= self.start {
            (self.end - self.start) as nat
        } else {
            0
        }
    }

    /// Length of the span in bytes.
    pub fn len(&self) -> (r: usize)
        ensures
            r == self.spec_len(),
    {
        self.end.saturating_sub(self.start)
    }

    pub fn is_empty(&self) -> (r: bool)
        ensures
            r == (self.spec_len() == 0),
    {
        self.len() == 0
    }
}

/// A single field within a message.
#[derive(Debug, Clone, PartialEq, Eq)]
pub struct ProtoField {
    pub name: String,
    /// The declared type token, e.g. `string`, `int32`, `Inner`, `map<...>`.
    pub ty: String,
    pub number: i64,
    pub repeated: bool,
    pub optional: bool,
    pub span: Span,
}

/// The view of a [`ProtoField`].
pub struct FieldView {
    pub name: Seq<u8>,
    pub ty: Seq<u8>,
    pub number: i64,
    pub repeated: bool,
    pub optional: bool,
    pub span: Span,
}

impl View for ProtoField {
    type V = FieldView;

    open spec fn view(&self) -> FieldView {
        FieldView {
            name: sbytes(self.name),
            ty: sbytes(self.ty),
            number: self.number,
            repeated: self.repeated,
            optional: self.optional,
            span: self.span,
        }
    }
}

/// A protobuf message definition. May contain nested messages.
#[derive(Debug, PartialEq, Eq)]
pub struct ProtoMessage {
    pub name: String,
    pub fields: Vec<ProtoField>,
    pub nested: Vec<ProtoMessage>,
    /// Stack depth at which this message was declared (`0` == top level).
    pub nesting_depth: usize,
    pub span: Span,
}

/// The view of a [`ProtoMessage`].
pub struct MessageView {
    pub name: Seq<u8>,
    pub fields: Seq<FieldView>,
    pub nested: Seq<MessageView>,
    pub nesting_depth: usize,
    pub span: Span,
}

/// The views of a sequence of fields.
pub open spec fn fields_view(fs: Seq<ProtoField>) -> Seq<FieldView> {
    fs.map_values(|f: ProtoField| f@)
}

/// A placeholder view, used only outside the range of a sequence.
pub open spec fn empty_message_view() -> MessageView {
    MessageView {
        name: Seq::empty(),
        fields: Seq::empty(),
        nested: Seq::empty(),
        nesting_depth: 0,
        span: Span { start: 0, end: 0 },
    }
}

/// The view of a message.
pub open spec fn message_view(m: ProtoMessage) -> MessageView
    decreases m,
{
    MessageView {
        name: sbytes(m.name),
        fields: fields_view(m.fields@),
        nested: Seq::new(
            m.nested@.len(),
            |i: int|
                if 0 <= i < m.nested@.len() {
                    message_view(m.nested@[i])
                } else {
                    empty_message_view()
                },
        ),
        nesting_depth: m.nesting_depth,
        span: m.span,
    }
}

impl View for ProtoMessage {
    type V = MessageView;

    open spec fn view(&self) -> MessageView {
        message_view(*self)
    }
}

/// A copy of a field, with the same view.
pub(crate) fn copy_field(f: &ProtoField) -> (r: ProtoField)
    ensures
        r@ == f@,
{
    ProtoField {
        name: f.name.clone(),
        ty: f.ty.clone(),
        number: f.number,
        repeated: f.repeated,
        optional: f.optional,
        span: f.span,
    }
}

/// A deep copy of a message, with the same view.
fn copy_message(m: &ProtoMessage) -> (r: ProtoMessage)
    ensures
        r@ == m@,
    decreases m,
{
    let mut fields: Vec<ProtoField> = Vec::new();
    let mut j: usize = 0;
    while j < m.fields.len()
        invariant
            j <= m.fields.len(),
            fields@.len() == j,
            forall|k: int| 0 <= k < j ==> (#[trigger] fields@[k])@ == m.fields@[k]@,
        decreases m.fields.len() - j,
    {
        fields.push(copy_field(&m.fields[j]));
        j = j + 1;
    }
    assert(fields_view(fields@) =~= fields_view(m.fields@));
    let mut nested: Vec<ProtoMessage> = Vec::new();
    let mut j: usize = 0;
    while j < m.nested.len()
        invariant
            j <= m.nested.len(),
            nested@.len() == j,
            forall|k: int| 0 <= k < j ==> (#[trigger] nested@[k])@ == m.nested@[k]@,
        decreases m.nested.len() - j,
    {
        proof {
            assert(decreases_to!(m => m.nested));
            assert(decreases_to!(m.nested => m.nested@));
            assert(decreases_to!(m.nested@ => m.nested@[j as int]));
        }
        nested.push(copy_message(&m.nested[j]));
        j = j + 1;
    }
    let r = ProtoMessage {
        name: m.name.clone(),
        fields,
        nested,
        nesting_depth: m.nesting_depth,
        span: m.span,
    };
    assert(r@.nested =~= m@.nested);
    r
}

impl Clone for ProtoMessage {
    /// A deep copy, with the same view.
    fn clone(&self) -> (r: Self)
        ensures
            r@ == self@,
    {
        copy_message(self)
    }
}

/// A fully parsed `.proto` file.
#[derive(Debug, Clone, PartialEq, Eq)]
pub struct ProtoFile {
    pub syntax: String,
    pub package: String,
    /// Top-level messages (nested ones live under their parent's `nested`).
    pub messages: Vec<ProtoMessage>,
    pub imports: Vec<String>,
    pub file_path: String,
    /// The source text, retained for diagnostic rendering.
    pub source: String,
}


/// The view of a [`ProtoFile`].
pub struct FileView {
    pub syntax: Seq<u8>,
    pub package: Seq<u8>,
    pub messages: Seq<MessageView>,
    pub imports: Seq<Seq<u8>>,
    pub file_path: Seq<u8>,
    pub source: Seq<u8>,
}

/// The views of a sequence of messages.
pub open spec fn messages_view(ms: Seq<ProtoMessage>) -> Seq<MessageView> {
    ms.map_values(|m: ProtoMessage| m@)
}

/// The bytes of each string of a sequence.
pub open spec fn strings_view(ss: Seq<String>) -> Seq<Seq<u8>> {
    ss.map_values(|s: String| sbytes(s))
}

impl View for ProtoFile {
    type V = FileView;

    open spec fn view(&self) -> FileView {
        FileView {
            syntax: sbytes(self.syntax),
            package: sbytes(self.package),
            messages: messages_view(self.messages@),
            imports: strings_view(self.imports@),
            file_path: sbytes(self.file_path),
            source: sbytes(self.source),
        }
    }
}


impl Default for ProtoFile {
    /// An empty `proto3` file.
    fn default() -> (r: Self)
        ensures
            r@ == (FileView {
                syntax: "proto3".spec_bytes(),
                package: Seq::empty(),
                messages: Seq::empty(),
                imports: Seq::empty(),
                file_path: Seq::empty(),
                source: Seq::empty(),
            }),
    {
        let r = ProtoFile {
            syntax: crate::text::own("proto3"),
            package: String::new(),
            messages: Vec::new(),
            imports: Vec::new(),
            file_path: String::new(),
            source: String::new(),
        };
        assert(messages_view(r.messages@) =~= Seq::<MessageView>::empty());
        assert(strings_view(r.imports@) =~= Seq::<Seq<u8>>::empty());
        assert(sbytes(r.package) =~= Seq::<u8>::empty());
        assert(sbytes(r.file_path) =~= Seq::<u8>::empty());
        assert(sbytes(r.source) =~= Seq::<u8>::empty());
        r
    }
}

} // verus!
