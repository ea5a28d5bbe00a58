//! Span-aware `.proto` parser.
//!
//! A line-oriented parser that records byte [`Span`]s for every message and
//! field, and pops the message stack on closing braces so that fields are
//! attributed to the right message.
//!
//! [`parsed`] states what [`parse_proto`] returns: the file is cut into lines
//! at each `\n`, each line moves a [`ParseState`] by one [`step`], and the
//! message tree is read off the final state.
use vstd::prelude::*;
use vstd::utf8::*;
use vstd::string::*;
use crate::text::{
    at_boundary, find_byte, find_from, has_at, lemma_after_ascii, lemma_find_from, own,
    sbytes, skip_uws, slice_str, uws_end, LBRACE, NEWLINE, RBRACE, SLASH,
};

pub mod lexer;
pub mod model;
pub mod laws;
pub mod roundtrip;

use lexer::{
    kw_optional_bytes, kw_repeated_bytes, lemma_field_decl, lemma_message_header,
    field_decl, import_of, match_field, match_import, match_message, match_package, match_syntax,
    message_header, package_of, syntax_of, FieldDecl, kw_optional, kw_repeated,
};
use model::copy_field;
pub use model::{
    empty_message_view, fields_view, messages_view, strings_view, FieldView, FileView, MessageView, ProtoField, ProtoFile, ProtoMessage,
    Span,
};

verus! {

broadcast use vstd::seq::group_seq_axioms, vstd::slice::group_slice_axioms;

/// A message under construction, as the parser records it.
pub struct NodeView {
    pub name: Seq<u8>,
    pub fields: Seq<FieldView>,
    /// Arena indices of the messages declared directly inside this one.
    pub children: Seq<usize>,
    pub nesting_depth: usize,
    pub span: Span,
}

/// The parser's state between two lines.
pub struct ParseState {
    pub syntax: Seq<u8>,
    pub package: Seq<u8>,
    pub imports: Seq<Seq<u8>>,
    /// Every message met so far, in order of appearance.
    pub arena: Seq<NodeView>,
    /// Arena indices of the top-level messages.
    pub roots: Seq<usize>,
    /// The open messages: arena index and the brace depth of the body.
    pub stack: Seq<(usize, int)>,
    /// `{` minus `}` over the lines that count.
    pub depth: int,
}

/// The number of occurrences of `c` in `l`.
pub open spec fn count_byte(l: Seq<u8>, c: u8) -> int
    decreases l.len(),
{
    if l.len() == 0 {
        0
    } else {
        count_byte(l.drop_last(), c) + if l.last() == c {
            1int
        } else {
            0int
        }
    }
}

/// The change of brace depth over a line.
pub open spec fn brace_delta(l: Seq<u8>) -> int {
    count_byte(l, LBRACE) - count_byte(l, RBRACE)
}

/// After leading whitespace the line is empty or starts with `//`.
pub open spec fn is_blank_or_comment(l: Seq<u8>) -> bool {
    let t = uws_end(l, 0);
    t >= l.len() || has_at(l, t, seq![SLASH, SLASH])
}

/// Pops every open message whose body lies deeper than `d`.
pub open spec fn pop_closed(stack: Seq<(usize, int)>, d: int) -> Seq<(usize, int)>
    decreases stack.len(),
{
    if stack.len() > 0 && stack.last().1 > d {
        pop_closed(stack.drop_last(), d)
    } else {
        stack
    }
}

/// `l` is `kw`.
pub open spec fn label_is(l: Seq<u8>, label: Option<(int, int)>, kw: Seq<u8>) -> bool {
    match label {
        Some((a, e)) => l.subrange(a, e) == kw,
        None => false,
    }
}

/// The field that a declaration on the line starting at `s` records.
pub open spec fn field_of(l: Seq<u8>, s: int, d: FieldDecl) -> FieldView {
    FieldView {
        name: l.subrange(d.name.0, d.name.1),
        ty: l.subrange(d.ty.0, d.ty.1),
        number: d.number,
        repeated: label_is(l, d.label, kw_repeated()),
        optional: label_is(l, d.label, kw_optional()),
        span: Span { start: (s + d.start) as usize, end: (s + d.end) as usize },
    }
}

/// A message header `Name` at `l[a..e]` opens a message whose body lies one
/// brace deeper than the depth before the line; the line's own closing
/// braces, as in `message A {}`, then close it again.
pub open spec fn open_message(st: ParseState, l: Seq<u8>, s: int, a: int, e: int, d: int) -> ParseState {
    let idx = st.arena.len() as usize;
    let node = NodeView {
        name: l.subrange(a, e),
        fields: Seq::empty(),
        children: Seq::empty(),
        nesting_depth: st.stack.len() as usize,
        span: Span { start: (s + a) as usize, end: (s + e) as usize },
    };
    let stack = pop_closed(st.stack.push((idx, st.depth + 1)), d);
    if st.stack.len() > 0 {
        let p = st.stack.last().0 as int;
        let parent = st.arena[p];
        ParseState {
            arena: st.arena.update(p, NodeView { children: parent.children.push(idx), ..parent }).push(
                node,
            ),
            stack,
            depth: d,
            ..st
        }
    } else {
        ParseState {
            arena: st.arena.push(node),
            roots: st.roots.push(idx),
            stack,
            depth: d,
            ..st
        }
    }
}

/// Any other line closes messages and may declare a field of the innermost
/// open one.
pub open spec fn close_and_declare(st: ParseState, l: Seq<u8>, s: int, d: int) -> ParseState {
    let stack = pop_closed(st.stack, d);
    if stack.len() > 0 && field_decl(l) is Some {
        let p = stack.last().0 as int;
        let node = st.arena[p];
        ParseState {
            arena: st.arena.update(
                p,
                NodeView { fields: node.fields.push(field_of(l, s, field_decl(l)->0)), ..node },
            ),
            stack,
            depth: d,
            ..st
        }
    } else {
        ParseState { stack, depth: d, ..st }
    }
}

/// The effect of one line `l` that starts at byte `s` of the source.
pub open spec fn step(st: ParseState, l: Seq<u8>, s: int) -> ParseState {
    if is_blank_or_comment(l) {
        st
    } else if let Some((a, e)) = syntax_of(l) {
        ParseState { syntax: l.subrange(a, e), ..st }
    } else if let Some((a, e)) = package_of(l) {
        ParseState { package: l.subrange(a, e), ..st }
    } else if let Some((a, e)) = import_of(l) {
        ParseState { imports: st.imports.push(l.subrange(a, e)), ..st }
    } else {
        let d = st.depth + brace_delta(l);
        match message_header(l) {
            Some((a, e)) => open_message(st, l, s, a, e, d),
            None => close_and_declare(st, l, s, d),
        }
    }
}

/// The end of the line that starts at `pos`.
pub open spec fn line_end(src: Seq<u8>, pos: int) -> int {
    match find_from(src, pos, NEWLINE) {
        Some(k) => k,
        None => src.len() as int,
    }
}

/// The state after the lines from `pos` to the end of `src`.
pub open spec fn run(src: Seq<u8>, pos: int, st: ParseState) -> ParseState
    decreases src.len() - pos,
{
    if pos < 0 || pos > src.len() {
        st
    } else {
        let e = line_end(src, pos);
        let next = step(st, src.subrange(pos, e), pos);
        if e < src.len() {
            proof {
                lemma_find_from(src, pos, NEWLINE);
            }
            run(src, e + 1, next)
        } else {
            next
        }
    }
}

/// The message tree rooted at arena index `i`.
pub open spec fn tree(arena: Seq<NodeView>, i: int) -> MessageView
    decreases arena.len() - i,
{
    if 0 <= i < arena.len() {
        let n = arena[i];
        MessageView {
            name: n.name,
            fields: n.fields,
            nested: Seq::new(
                n.children.len(),
                |j: int|
                    if i < n.children[j] < arena.len() {
                        tree(arena, n.children[j] as int)
                    } else {
                        empty_message_view()
                    },
            ),
            nesting_depth: n.nesting_depth,
            span: n.span,
        }
    } else {
        empty_message_view()
    }
}

/// `proto3`
pub open spec fn default_syntax() -> Seq<u8> {
    seq![112u8, 114, 111, 116, 111, 51]
}

/// The state before the first line.
pub open spec fn initial_state() -> ParseState {
    ParseState {
        syntax: default_syntax(),
        package: Seq::empty(),
        imports: Seq::empty(),
        arena: Seq::empty(),
        roots: Seq::empty(),
        stack: Seq::empty(),
        depth: 0,
    }
}

/// The file that `parse_proto` reads from `src`.
pub open spec fn parsed(src: Seq<u8>, path: Seq<u8>) -> FileView {
    let st = run(src, 0, initial_state());
    FileView {
        syntax: st.syntax,
        package: st.package,
        messages: Seq::new(st.roots.len(), |k: int| tree(st.arena, st.roots[k] as int)),
        imports: st.imports,
        file_path: path,
        source: src,
    }
}


/// Arena indices point inside the arena, and children come after their parent.
pub open spec fn wf(st: ParseState) -> bool {
    &&& forall|k: int| 0 <= k < st.stack.len() ==> (#[trigger] st.stack[k]).0 < st.arena.len()
    &&& forall|k: int| 0 <= k < st.roots.len() ==> #[trigger] st.roots[k] < st.arena.len()
    &&& arena_wf(st.arena)
}

/// Children come after their parent and lie inside the arena.
pub open spec fn arena_wf(arena: Seq<NodeView>) -> bool {
    forall|i: int, j: int|
        0 <= i < arena.len() && 0 <= j < arena[i].children.len() ==> i < #[trigger] arena[i].children[j]
            < arena.len()
}

/// The open messages that remain are a prefix of those before.
pub proof fn lemma_pop_closed(stack: Seq<(usize, int)>, d: int)
    ensures
        pop_closed(stack, d).len() <= stack.len(),
        forall|k: int| 0 <= k < pop_closed(stack, d).len() ==> pop_closed(stack, d)[k] == stack[k],
    decreases stack.len(),
{
    if stack.len() > 0 && stack.last().1 > d {
        lemma_pop_closed(stack.drop_last(), d);
        assert forall|k: int| 0 <= k < pop_closed(stack, d).len() implies pop_closed(stack, d)[k]
            == stack[k] by {
            assert(stack.drop_last()[k] == stack[k]);
        }
    }
}

/// A message under construction.
struct Node {
    name: String,
    fields: Vec<ProtoField>,
    children: Vec<usize>,
    nesting_depth: usize,
    span: Span,
}

impl View for Node {
    type V = NodeView;

    closed spec fn view(&self) -> NodeView {
        NodeView {
            name: sbytes(self.name),
            fields: fields_view(self.fields@),
            children: self.children@,
            nesting_depth: self.nesting_depth,
            span: self.span,
        }
    }
}

/// The parser's state.
struct Builder {
    syntax: String,
    package: String,
    imports: Vec<String>,
    arena: Vec<Node>,
    roots: Vec<usize>,
    stack: Vec<(usize, i64)>,
    depth: i64,
}

/// The views of the arena's nodes.
spec fn nodes_view(ns: Seq<Node>) -> Seq<NodeView> {
    ns.map_values(|n: Node| n@)
}

/// The open messages with their depths as integers.
spec fn stack_view(s: Seq<(usize, i64)>) -> Seq<(usize, int)> {
    s.map_values(|p: (usize, i64)| (p.0, p.1 as int))
}

impl View for Builder {
    type V = ParseState;

    closed spec fn view(&self) -> ParseState {
        ParseState {
            syntax: sbytes(self.syntax),
            package: sbytes(self.package),
            imports: strings_view(self.imports@),
            arena: nodes_view(self.arena@),
            roots: self.roots@,
            stack: stack_view(self.stack@),
            depth: self.depth as int,
        }
    }
}

/// `{` minus `}` in the line.
fn brace_delta_exec(b: &[u8]) -> (r: i64)
    requires
        b.len() <= isize::MAX,
    ensures
        r == brace_delta(b@),
        -b.len() <= r <= b.len(),
{
    let mut delta: i64 = 0;
    let mut k: usize = 0;
    while k < b.len()
        invariant
            k <= b.len() <= isize::MAX,
            delta == brace_delta(b@.take(k as int)),
            -k <= delta <= k,
        decreases b.len() - k,
    {
        assert(b@.take(k + 1).drop_last() =~= b@.take(k as int));
        if b[k] == LBRACE {
            delta = delta + 1;
        } else if b[k] == RBRACE {
            delta = delta - 1;
        }
        k = k + 1;
    }
    assert(b@.take(k as int) =~= b@);
    delta
}

/// The bytes of `s` are `kw`.
fn text_is(s: &str, kw: &[u8]) -> (r: bool)
    ensures
        r == (s.spec_bytes() == kw@),
{
    crate::text::bytes_eq(s.as_bytes(), kw)
}

/// Process one line that starts at byte `start` of the source.
/// Pops every open message whose body lies deeper than `d`.
fn pop_closed_exec(stack: &mut Vec<(usize, i64)>, d: i64)
    ensures
        stack_view(final(stack)@) == pop_closed(stack_view(old(stack)@), d as int),
{
    let ghost s0 = stack_view(stack@);
    while stack.len() > 0 && stack[stack.len() - 1].1 > d
        invariant
            pop_closed(s0, d as int) == pop_closed(stack_view(stack@), d as int),
        decreases stack.len(),
    {
        let ghost before = stack@;
        assert(stack_view(before).last().1 > d);
        stack.pop();
        assert(stack_view(stack@) =~= stack_view(before).drop_last());
    }
    proof {
        if stack@.len() > 0 {
            assert(stack_view(stack@).last().1 == stack@[stack@.len() - 1].1);
        }
    }
}

fn process_line(b: &mut Builder, line: &str, start: usize)
    requires
        wf(old(b)@),
        -start <= old(b).depth <= start,
        start + line.spec_bytes().len() <= isize::MAX,
    ensures
        final(b)@ == step(old(b)@, line.spec_bytes(), start as int),
        wf(final(b)@),
        -(start + line.spec_bytes().len()) <= final(b).depth <= start + line.spec_bytes().len(),
{
    let ghost l = line.spec_bytes();
    let ghost st = b@;
    let bytes = line.as_bytes();
    proof {
        encode_utf8_valid_utf8(line@);
    }
    let t = skip_uws(bytes, 0);
    if t >= bytes.len() || (bytes.len() - t >= 2 && bytes[t] == SLASH && bytes[t + 1] == SLASH) {
        assert(t < l.len() ==> l.subrange(t as int, t + 2) =~= seq![SLASH, SLASH]);
        return;
    }
    assert(!has_at(l, t as int, seq![SLASH, SLASH])) by {
        if has_at(l, t as int, seq![SLASH, SLASH]) {
            assert(l.subrange(t as int, t + 2)[0] == l[t as int]);
            assert(l.subrange(t as int, t + 2)[1] == l[t + 1]);
        }
    }
    if let Some(x) = match_syntax(line) {
        b.syntax = own(x);
        return;
    }
    if let Some(x) = match_package(line) {
        b.package = own(x);
        return;
    }
    if let Some(x) = match_import(line) {
        let ghost old_imports = b.imports@;
        b.imports.push(own(x));
        assert(strings_view(b.imports@) =~= strings_view(old_imports).push(x.spec_bytes()));
        return;
    }
    let delta = brace_delta_exec(bytes);
    let d = b.depth + delta;
    if let Some(m) = match_message(line) {
        proof {
            lemma_message_header(l);
            lemma_after_ascii(l, m.name_end - 1);
        }
        let depth_n = b.stack.len();
        let idx = b.arena.len();
        let name = own(slice_str(line, m.name_start, m.name_end));
        let span = Span::new(start + m.name_start, start + m.name_end);
        let ghost node_v = NodeView {
            name: l.subrange(m.name_start as int, m.name_end as int),
            fields: Seq::empty(),
            children: Seq::empty(),
            nesting_depth: depth_n,
            span,
        };
        if b.stack.len() > 0 {
            let p = b.stack[b.stack.len() - 1].0;
            assert(stack_view(b.stack@)[b.stack.len() - 1].0 == p);
            assert(st.stack[b.stack.len() - 1].0 < st.arena.len());
            let ghost parent = st.arena[p as int];
            b.arena[p].children.push(idx);
            assert(nodes_view(b.arena@) =~= st.arena.update(
                p as int,
                NodeView { children: parent.children.push(idx), ..parent },
            ));
        } else {
            b.roots.push(idx);
        }
        let ghost arena_mid = nodes_view(b.arena@);
        let node = Node { name, fields: Vec::new(), children: Vec::new(), nesting_depth: depth_n, span };
        assert(node@ == node_v) by {
            assert(fields_view(node.fields@) =~= Seq::<FieldView>::empty());
        }
        b.arena.push(node);
        assert(nodes_view(b.arena@) =~= arena_mid.push(node_v));
        let ghost old_stack = b.stack@;
        b.stack.push((idx, b.depth + 1));
        assert(stack_view(b.stack@) =~= stack_view(old_stack).push((idx, st.depth + 1)));
        proof {
            lemma_pop_closed(stack_view(b.stack@), d as int);
        }
        let ghost pushed = stack_view(b.stack@);
        pop_closed_exec(&mut b.stack, d);
        b.depth = d;
        proof {
            let nv = b@;
            assert forall|i: int, j: int|
                0 <= i < nv.arena.len() && 0 <= j < nv.arena[i].children.len() implies i
                < #[trigger] nv.arena[i].children[j] < nv.arena.len() by {
                if i < st.arena.len() {
                    if st.stack.len() > 0 && i == st.stack.last().0 as int {
                        if j < st.arena[i].children.len() {
                        }
                    }
                }
            }
            assert forall|k: int| 0 <= k < nv.stack.len() implies (#[trigger] nv.stack[k]).0
                < nv.arena.len() by {
                assert(nv.stack[k] == pushed[k]);
                if k < st.stack.len() {
                    assert(pushed[k] == st.stack[k]);
                }
            }
            assert forall|k: int| 0 <= k < nv.roots.len() implies #[trigger] nv.roots[k]
                < nv.arena.len() by {
                if k < st.roots.len() {
                    assert(nv.roots[k] == st.roots[k]);
                }
            }
        }
        return;
    }
    proof {
        lemma_pop_closed(st.stack, d as int);
    }
    pop_closed_exec(&mut b.stack, d);
    b.depth = d;
    if b.stack.len() > 0 {
        if let Some(fm) = match_field(line) {
            proof {
                lemma_field_decl(l);
            }
            let p = b.stack[b.stack.len() - 1].0;
            assert(stack_view(b.stack@)[b.stack.len() - 1].0 == p);
            assert(st.stack[b.stack.len() - 1].0 < st.arena.len());
            assert(b.arena@.len() == st.arena.len());
            let repeated = match fm.label {
                Some(x) => text_is(x, kw_repeated_bytes()),
                None => false,
            };
            let optional = match fm.label {
                Some(x) => text_is(x, kw_optional_bytes()),
                None => false,
            };
            let field = ProtoField {
                name: own(fm.name),
                ty: own(fm.ty),
                number: fm.number,
                repeated,
                optional,
                span: Span::new(start + fm.start, start + fm.end),
            };
            let ghost before = nodes_view(b.arena@);
            let ghost fv = field_of(l, start as int, field_decl(l)->0);
            assert(field@ == fv);
            let ghost node = before[p as int];
            let ghost old_fields = b.arena@[p as int].fields@;
            b.arena[p].fields.push(field);
            assert(fields_view(old_fields.push(field)) =~= fields_view(old_fields).push(fv));
            assert(nodes_view(b.arena@) =~= before.update(
                p as int,
                NodeView { fields: node.fields.push(fv), ..node },
            ));
        }
    }
    proof {
        let nv = b@;
        assert forall|k: int| 0 <= k < nv.stack.len() implies (#[trigger] nv.stack[k]).0
            < nv.arena.len() by {
            assert(nv.stack[k] == st.stack[k]);
        }
        assert forall|i: int, j: int|
            0 <= i < nv.arena.len() && 0 <= j < nv.arena[i].children.len() implies i
            < #[trigger] nv.arena[i].children[j] < nv.arena.len() by {
            assert(nv.arena[i].children == st.arena[i].children);
        }
    }
}


/// The message tree rooted at arena index `idx`.
fn build_tree(arena: &Vec<Node>, idx: usize) -> (r: ProtoMessage)
    requires
        idx < arena.len(),
        arena_wf(nodes_view(arena@)),
    ensures
        r@ == tree(nodes_view(arena@), idx as int),
    decreases arena.len() - idx,
{
    let ghost av = nodes_view(arena@);
    let node = &arena[idx];
    assert(node@ == av[idx as int]);
    let mut fields: Vec<ProtoField> = Vec::new();
    let mut j: usize = 0;
    while j < node.fields.len()
        invariant
            j <= node.fields.len(),
            fields@.len() == j,
            forall|k: int| 0 <= k < j ==> (#[trigger] fields@[k])@ == node.fields@[k]@,
        decreases node.fields.len() - j,
    {
        fields.push(copy_field(&node.fields[j]));
        j = j + 1;
    }
    assert(fields_view(fields@) =~= fields_view(node.fields@));
    let mut nested: Vec<ProtoMessage> = Vec::new();
    let mut j: usize = 0;
    while j < node.children.len()
        invariant
            j <= node.children.len(),
            node@ == av[idx as int],
            idx < arena.len(),
            av == nodes_view(arena@),
            arena_wf(av),
            nested@.len() == j,
            forall|k: int|
                0 <= k < j ==> (#[trigger] nested@[k])@ == tree(av, node.children@[k] as int),
        decreases node.children.len() - j,
    {
        let c = node.children[j];
        assert(av[idx as int].children[j as int] == c);
        nested.push(build_tree(arena, c));
        j = j + 1;
    }
    let r = ProtoMessage {
        name: node.name.clone(),
        fields,
        nested,
        nesting_depth: node.nesting_depth,
        span: node.span,
    };
    assert(r@.nested =~= tree(av, idx as int).nested) by {
        assert forall|k: int| 0 <= k < nested@.len() implies r@.nested[k] == tree(
            av,
            idx as int,
        ).nested[k] by {
            assert(av[idx as int].children[k] == node.children@[k]);
        }
    }
    r
}

/// Parse a `.proto` source string into a [`ProtoFile`].
///
/// This never fails: unrecognized lines are ignored. The returned file
/// retains the `source` text for diagnostic rendering.
pub fn parse_proto(content: &str, file_path: &str) -> (r: ProtoFile)
    requires
        content.spec_bytes().len() <= isize::MAX,
    ensures
        r@ == parsed(content.spec_bytes(), file_path.spec_bytes()),
{
    let ghost src = content.spec_bytes();
    let bytes = content.as_bytes();
    proof {
        encode_utf8_valid_utf8(content@);
    }
    let proto3 = own("proto3");
    proof {
        reveal_strlit("proto3");
        is_ascii_chars_encode_utf8("proto3"@);
        assert(sbytes(proto3) =~= default_syntax());
    }
    let mut b = Builder {
        syntax: proto3,
        package: String::new(),
        imports: Vec::new(),
        arena: Vec::new(),
        roots: Vec::new(),
        stack: Vec::new(),
        depth: 0,
    };
    assert(b@ == initial_state()) by {
        assert(strings_view(b.imports@) =~= Seq::<Seq<u8>>::empty());
        assert(nodes_view(b.arena@) =~= Seq::<NodeView>::empty());
        assert(stack_view(b.stack@) =~= Seq::<(usize, int)>::empty());
        assert(sbytes(b.package) =~= Seq::<u8>::empty());
    }
    let ghost target = run(src, 0, initial_state());
    let mut pos: usize = 0;
    loop
        invariant_except_break
            pos <= bytes.len(),
            at_boundary(src, pos as int),
            -pos <= b.depth <= pos,
            target == run(src, pos as int, b@),
        invariant
            bytes@ == src,
            src == content.spec_bytes(),
            valid_utf8(src),
            src.len() <= isize::MAX,
            wf(b@),
        ensures
            target == b@,
        decreases bytes.len() - pos,
    {
        let e = match find_byte(bytes, pos, NEWLINE) {
            Some(k) => k,
            None => bytes.len(),
        };
        proof {
            lemma_find_from(src, pos as int, NEWLINE);
        }
        assert(e == line_end(src, pos as int));
        let line = slice_str(content, pos, e);
        process_line(&mut b, line, pos);
        if e < bytes.len() {
            proof {
                lemma_after_ascii(src, e as int);
            }
            pos = e + 1;
        } else {
            break;
        }
    }
    let mut messages: Vec<ProtoMessage> = Vec::new();
    let mut k: usize = 0;
    while k < b.roots.len()
        invariant
            k <= b.roots.len(),
            wf(b@),
            messages@.len() == k,
            forall|j: int|
                0 <= j < k ==> (#[trigger] messages@[j])@ == tree(b@.arena, b.roots@[j] as int),
        decreases b.roots.len() - k,
    {
        assert(b@.roots[k as int] < b@.arena.len());
        messages.push(build_tree(&b.arena, b.roots[k]));
        k = k + 1;
    }
    let r = ProtoFile {
        syntax: b.syntax,
        package: b.package,
        messages,
        imports: b.imports,
        file_path: own(file_path),
        source: own(content),
    };
    assert(r@.messages =~= parsed(src, file_path.spec_bytes()).messages);
    r
}


/// The nesting metric of a message: its own depth plus that of its deepest
/// chain of nested messages.
pub open spec fn message_depth(m: MessageView) -> nat
    decreases m, 1nat,
{
    (m.nesting_depth + chain_depth(m.nested)) as nat
}

/// The maximum, over the messages, of [`message_depth`] (0 when empty).
pub open spec fn chain_depth(ms: Seq<MessageView>) -> nat
    decreases ms, 0nat,
{
    if ms.len() == 0 {
        0
    } else {
        let a = chain_depth(ms.drop_last());
        let b = message_depth(ms.last());
        if a >= b {
            a
        } else {
            b
        }
    }
}

/// The nesting metric of a file.
pub open spec fn nesting_depth_of(f: FileView) -> nat {
    chain_depth(f.messages)
}

/// The metric of the messages, or `None` when it does not fit in a `usize`.
fn depth_of_messages(msgs: &Vec<ProtoMessage>) -> (r: Option<usize>)
    ensures
        chain_depth(messages_view(msgs@)) <= usize::MAX ==> r == Some(
            chain_depth(messages_view(msgs@)) as usize,
        ),
        chain_depth(messages_view(msgs@)) > usize::MAX ==> r is None,
    decreases msgs@,
{
    let mut best: usize = 0;
    let mut i: usize = 0;
    while i < msgs.len()
        invariant
            i <= msgs.len(),
            best == chain_depth(messages_view(msgs@).take(i as int)),
        decreases msgs.len() - i,
    {
        let ghost mv = messages_view(msgs@);
        assert(mv.take(i + 1).drop_last() =~= mv.take(i as int));
        assert(mv.take(i + 1).last() == msgs@[i as int]@);
        proof {
            lemma_chain_depth_prefix(mv, i + 1);
        }
        let m = &msgs[i];
        assert(messages_view(m.nested@) == m@.nested) by {
            assert(messages_view(m.nested@) =~= m@.nested);
        }
        let inner = match depth_of_messages(&m.nested) {
            Some(x) => x,
            None => {
                return None;
            },
        };
        if inner > usize::MAX - m.nesting_depth {
            return None;
        }
        let d = m.nesting_depth + inner;
        if d > best {
            best = d;
        }
        i = i + 1;
    }
    assert(messages_view(msgs@).take(i as int) =~= messages_view(msgs@));
    Some(best)
}

/// A prefix of the messages has no larger metric.
proof fn lemma_chain_depth_prefix(ms: Seq<MessageView>, n: int)
    requires
        0 <= n <= ms.len(),
    ensures
        chain_depth(ms.take(n)) <= chain_depth(ms),
        n > 0 ==> message_depth(ms[n - 1]) <= chain_depth(ms),
    decreases ms.len(),
{
    if n == ms.len() {
        assert(ms.take(n) =~= ms);
        if n > 0 {
            assert(ms.last() == ms[n - 1]);
        }
    } else {
        lemma_chain_depth_prefix(ms.drop_last(), n);
        assert(ms.drop_last().take(n) =~= ms.take(n));
        if n > 0 {
            assert(ms.drop_last()[n - 1] == ms[n - 1]);
        }
    }
}

/// Maximum message nesting metric: the maximum, over root chains, of the
/// summed `nesting_depth` values.
///
/// For a linear chain of `d` levels this yields `0 + 1 + … + (d-1)`.
pub fn max_nesting_depth(proto: &ProtoFile) -> (r: usize)
    requires
        nesting_depth_of(proto@) <= usize::MAX,
    ensures
        r == nesting_depth_of(proto@),
{
    match depth_of_messages(&proto.messages) {
        Some(d) => d,
        None => 0,
    }
}

/// Whether the nesting metric of `proto` fits in a `usize`, which
/// [`max_nesting_depth`] and the scanner need.
pub fn nesting_depth_fits(proto: &ProtoFile) -> (r: bool)
    ensures
        r == (nesting_depth_of(proto@) <= usize::MAX),
{
    depth_of_messages(&proto.messages).is_some()
}


/// `(message, field)` for each field of the message typed by the message itself.
pub open spec fn self_refs(name: Seq<u8>, fs: Seq<FieldView>) -> Seq<(Seq<u8>, Seq<u8>)>
    decreases fs.len(),
{
    if fs.len() == 0 {
        Seq::empty()
    } else {
        self_refs(name, fs.drop_last()) + if fs.last().ty == name {
            seq![(name, fs.last().name)]
        } else {
            Seq::empty()
        }
    }
}

/// The self references of the messages, in declaration order.
pub open spec fn recursive_refs(ms: Seq<MessageView>) -> Seq<(Seq<u8>, Seq<u8>)>
    decreases ms.len(),
{
    if ms.len() == 0 {
        Seq::empty()
    } else {
        recursive_refs(ms.drop_last()) + self_refs(ms.last().name, ms.last().fields)
    }
}

/// The bytes of each pair of strings.
pub open spec fn pairs_view(v: Seq<(String, String)>) -> Seq<(Seq<u8>, Seq<u8>)> {
    v.map_values(|p: (String, String)| (sbytes(p.0), sbytes(p.1)))
}

/// Whether two strings have the same text.
pub fn same_text(a: &String, b: &String) -> (r: bool)
    ensures
        r == (sbytes(*a) == sbytes(*b)),
{
    let r = *a == *b;
    proof {
        if sbytes(*a) == sbytes(*b) {
            crate::text::lemma_encode_injective(a@, b@);
        }
    }
    r
}

/// Find top-level messages whose fields directly reference themselves.
///
/// Returns `(message_name, field_name)` pairs in declaration order.
pub fn has_recursive_refs(proto: &ProtoFile) -> (r: Vec<(String, String)>)
    ensures
        pairs_view(r@) == recursive_refs(proto@.messages),
{
    let ghost ms = proto@.messages;
    let mut out: Vec<(String, String)> = Vec::new();
    let mut i: usize = 0;
    while i < proto.messages.len()
        invariant
            i <= proto.messages.len(),
            ms == messages_view(proto.messages@),
            pairs_view(out@) == recursive_refs(ms.take(i as int)),
        decreases proto.messages.len() - i,
    {
        let msg = &proto.messages[i];
        let ghost mv = msg@;
        assert(ms[i as int] == mv);
        let ghost base = out@;
        let mut j: usize = 0;
        while j < msg.fields.len()
            invariant
                j <= msg.fields.len(),
                mv == msg@,
                mv.fields == fields_view(msg.fields@),
                pairs_view(out@) == pairs_view(base) + self_refs(mv.name, mv.fields.take(j as int)),
            decreases msg.fields.len() - j,
        {
            let f = &msg.fields[j];
            assert(mv.fields[j as int] == f@);
            assert(mv.fields.take(j + 1).drop_last() =~= mv.fields.take(j as int));
            let ghost before = out@;
            if same_text(&f.ty, &msg.name) {
                out.push((msg.name.clone(), f.name.clone()));
                assert(pairs_view(out@) =~= pairs_view(before).push((mv.name, f@.name)));
            }
            assert(pairs_view(out@) =~= pairs_view(base) + self_refs(mv.name, mv.fields.take(j + 1)));
            j = j + 1;
        }
        assert(mv.fields.take(j as int) =~= mv.fields);
        assert(ms.take(i + 1).drop_last() =~= ms.take(i as int));
        i = i + 1;
    }
    assert(ms.take(i as int) =~= ms);
    out
}

/// Every message in depth-first order: each message, then the messages
/// nested in it, then its later siblings.
pub open spec fn flatten(ms: Seq<MessageView>) -> Seq<MessageView>
    decreases ms,
{
    if ms.len() == 0 {
        Seq::empty()
    } else {
        seq![ms[0]] + flatten(ms[0].nested) + flatten(ms.drop_first())
    }
}

/// The views of borrowed messages.
pub open spec fn refs_view(v: Seq<&ProtoMessage>) -> Seq<MessageView> {
    v.map_values(|m: &ProtoMessage| m@)
}

fn walk<'a>(msgs: &'a Vec<ProtoMessage>, out: &mut Vec<&'a ProtoMessage>)
    ensures
        refs_view(final(out)@) == refs_view(old(out)@) + flatten(messages_view(msgs@)),
    decreases msgs@,
{
    let ghost ms = messages_view(msgs@);
    let ghost base = refs_view(out@);
    let mut i: usize = 0;
    assert(ms.skip(0) =~= ms);
    while i < msgs.len()
        invariant
            i <= msgs.len(),
            ms == messages_view(msgs@),
            base + flatten(ms) == refs_view(out@) + flatten(ms.skip(i as int)),
        decreases msgs.len() - i,
    {
        let m = &msgs[i];
        assert(ms.skip(i as int)[0] == m@);
        assert(ms.skip(i as int).drop_first() =~= ms.skip(i + 1));
        assert(messages_view(m.nested@) =~= m@.nested);
        let ghost before = refs_view(out@);
        out.push(m);
        assert(refs_view(out@) =~= before.push(m@));
        walk(&m.nested, out);
        assert(before + flatten(ms.skip(i as int)) =~= refs_view(out@) + flatten(ms.skip(i + 1)));
        i = i + 1;
    }
    assert(ms.skip(i as int) =~= Seq::<MessageView>::empty());
    assert(base + flatten(ms) =~= refs_view(out@));
}

impl ProtoFile {
    /// Every message in the file, including nested ones, in depth-first order.
    pub fn all_messages(&self) -> (r: Vec<&ProtoMessage>)
        ensures
            refs_view(r@) == flatten(self@.messages),
    {
        let mut out: Vec<&ProtoMessage> = Vec::new();
        walk(&self.messages, &mut out);
        assert(refs_view(out@) =~= Seq::<MessageView>::empty() + flatten(self@.messages));
        out
    }
}

} // verus!
