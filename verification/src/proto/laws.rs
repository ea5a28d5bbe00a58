//! Properties of the parser that hold for every source text.
use vstd::prelude::*;
use crate::text::{find_from, SEMICOLON};
use crate::text::lemma_find_from;
use super::lexer::{field_decl, lemma_field_decl, lemma_message_header, message_header};
use super::{
    recursive_refs, self_refs,
    chain_depth, message_depth, nesting_depth_of,
    arena_wf, close_and_declare, field_of, flatten, lemma_pop_closed, line_end, open_message,
    parsed, pop_closed, run, step, tree, wf, initial_state, FieldView, MessageView, NodeView,
    ParseState, Span,
};

verus! {

broadcast use vstd::seq::group_seq_axioms;

/// A span that lies within `src`.
pub open spec fn span_within(src: Seq<u8>, s: Span) -> bool {
    s.start <= s.end <= src.len()
}

/// A field's span: non-empty, within `src`, and ending at the `;` of the
/// declaration.
pub open spec fn field_span_ok(src: Seq<u8>, s: Span) -> bool {
    &&& span_within(src, s)
    &&& s.start < s.end
    &&& src[s.end - 1] == SEMICOLON
}

/// The message's span covers its name in `src`, and each field's span lies
/// within `src` and ends at the declaration's `;`.
pub open spec fn message_spans_ok(src: Seq<u8>, m: MessageView) -> bool {
    &&& span_within(src, m.span)
    &&& src.subrange(m.span.start as int, m.span.end as int) == m.name
    &&& forall|j: int| 0 <= j < m.fields.len() ==> field_span_ok(src, #[trigger] m.fields[j].span)
}

/// The same for a message under construction.
pub open spec fn node_spans_ok(src: Seq<u8>, n: NodeView) -> bool {
    &&& span_within(src, n.span)
    &&& src.subrange(n.span.start as int, n.span.end as int) == n.name
    &&& forall|j: int| 0 <= j < n.fields.len() ==> field_span_ok(src, #[trigger] n.fields[j].span)
}

/// No field is both `repeated` and `optional`.
pub open spec fn labels_ok(fields: Seq<FieldView>) -> bool {
    forall|j: int| 0 <= j < fields.len() ==> !((#[trigger] fields[j]).repeated && fields[j].optional)
}

/// Open messages sit at their stack depth, roots at 0, children one below
/// their parent.
pub open spec fn depths_ok(st: ParseState) -> bool {
    &&& forall|k: int|
        0 <= k < st.stack.len() ==> st.arena[(#[trigger] st.stack[k]).0 as int].nesting_depth == k
    &&& forall|k: int| 0 <= k < st.roots.len() ==> st.arena[#[trigger] st.roots[k] as int].nesting_depth == 0
    &&& forall|i: int, j: int|
        0 <= i < st.arena.len() && 0 <= j < st.arena[i].children.len() ==> st.arena[#[trigger] st.arena[i].children[j] as int].nesting_depth
            == st.arena[i].nesting_depth + 1
}

/// What the parser keeps true from line to line.
pub open spec fn parse_inv(src: Seq<u8>, st: ParseState) -> bool {
    &&& wf(st)
    &&& depths_ok(st)
    &&& st.stack.len() <= st.arena.len()
    &&& forall|i: int| 0 <= i < st.arena.len() ==> node_spans_ok(src, #[trigger] st.arena[i])
    &&& forall|i: int| 0 <= i < st.arena.len() ==> labels_ok((#[trigger] st.arena[i]).fields)
}

proof fn lemma_open_message_inv(src: Seq<u8>, pos: int, e: int, st: ParseState, a: int, b: int, d: int)
    requires
        parse_inv(src, st),
        0 <= pos <= e <= src.len() <= usize::MAX,
        st.arena.len() <= pos,
        message_header(src.subrange(pos, e)) == Some((a, b)),
    ensures
        parse_inv(src, open_message(st, src.subrange(pos, e), pos, a, b, d)),
        open_message(st, src.subrange(pos, e), pos, a, b, d).arena.len() <= e,
{
    let l = src.subrange(pos, e);
    lemma_message_header(l);
    let nst = open_message(st, l, pos, a, b, d);
    let idx = st.arena.len() as usize;
    assert(l.subrange(a, b) =~= src.subrange(pos + a, pos + b));
    assert(nst.arena.len() == st.arena.len() + 1);
    assert forall|i: int| 0 <= i < nst.arena.len() implies node_spans_ok(src, #[trigger] nst.arena[i]) by {
        if i < st.arena.len() {
            assert(nst.arena[i].span == st.arena[i].span);
            assert(nst.arena[i].name == st.arena[i].name);
            assert(nst.arena[i].fields == st.arena[i].fields);
            assert(node_spans_ok(src, st.arena[i]));
        }
    }
    let node = nst.arena[idx as int];
    assert(node.children.len() == 0);
    assert(node.nesting_depth == st.stack.len());
    if st.stack.len() > 0 {
        let p = st.stack.last().0 as int;
        assert(st.stack[st.stack.len() - 1].0 < st.arena.len());
        assert(st.arena[p].nesting_depth == st.stack.len() - 1);
        assert(nst.arena[p].children == st.arena[p].children.push(idx));
        assert(nst.arena[p].nesting_depth == st.arena[p].nesting_depth);
    }
    assert forall|i: int| 0 <= i < st.arena.len() implies (#[trigger] nst.arena[i]).nesting_depth
        == st.arena[i].nesting_depth && nst.arena[i].fields == st.arena[i].fields by {}
    assert(node.fields.len() == 0);
    assert forall|i: int| 0 <= i < nst.arena.len() implies labels_ok((#[trigger] nst.arena[i]).fields) by {
        if i < st.arena.len() {
            assert(labels_ok(st.arena[i].fields));
        }
    }
    assert forall|i: int, j: int|
        0 <= i < nst.arena.len() && 0 <= j < nst.arena[i].children.len() implies i
        < #[trigger] nst.arena[i].children[j] < nst.arena.len() && nst.arena[nst.arena[i].children[j] as int].nesting_depth
        == nst.arena[i].nesting_depth + 1 by {
        if i < st.arena.len() {
            if st.stack.len() > 0 && i == st.stack.last().0 as int && j == st.arena[i].children.len() {
                assert(nst.arena[i].children[j] == idx);
            } else {
                assert(nst.arena[i].children[j] == st.arena[i].children[j]);
                let c = st.arena[i].children[j];
                assert(i < c < st.arena.len());
            }
        }
    }
    let pushed = st.stack.push((idx, st.depth + 1));
    lemma_pop_closed(pushed, d);
    assert(nst.stack == pop_closed(pushed, d));
    assert forall|k: int| 0 <= k < nst.stack.len() implies (#[trigger] nst.stack[k]).0
        < nst.arena.len() && nst.arena[nst.stack[k].0 as int].nesting_depth == k by {
        assert(nst.stack[k] == pushed[k]);
        if k < st.stack.len() {
            assert(pushed[k] == st.stack[k]);
            assert(st.stack[k].0 < st.arena.len());
        } else {
            assert(pushed[k].0 == idx);
        }
    }
    assert forall|k: int| 0 <= k < nst.roots.len() implies #[trigger] nst.roots[k]
        < nst.arena.len() && nst.arena[nst.roots[k] as int].nesting_depth == 0 by {
        if k < st.roots.len() {
            assert(nst.roots[k] == st.roots[k]);
            assert(st.roots[k] < st.arena.len());
        }
    }
}

proof fn lemma_close_inv(src: Seq<u8>, pos: int, e: int, st: ParseState, d: int)
    requires
        parse_inv(src, st),
        0 <= pos <= e <= src.len() <= usize::MAX,
    ensures
        parse_inv(src, close_and_declare(st, src.subrange(pos, e), pos, d)),
        close_and_declare(st, src.subrange(pos, e), pos, d).arena.len() == st.arena.len(),
{
    let l = src.subrange(pos, e);
    lemma_field_decl(l);
    lemma_pop_closed(st.stack, d);
    let stack = pop_closed(st.stack, d);
    let nst = close_and_declare(st, l, pos, d);
    if stack.len() > 0 {
        assert(stack.last() == st.stack[stack.len() - 1]);
        assert(st.stack[stack.len() - 1].0 < st.arena.len());
    }
    assert(nst.arena.len() == st.arena.len());
    assert forall|i: int| 0 <= i < nst.arena.len() implies node_spans_ok(src, #[trigger] nst.arena[i]) by {
        assert(node_spans_ok(src, st.arena[i]));
        assert(nst.arena[i].span == st.arena[i].span);
        assert(nst.arena[i].name == st.arena[i].name);
        if stack.len() > 0 && field_decl(l) is Some && i == stack.last().0 as int {
            let fv = field_of(l, pos, field_decl(l)->0);
            assert(nst.arena[i].fields == st.arena[i].fields.push(fv));
            let dd = field_decl(l)->0;
            assert(src[pos + dd.end - 1] == l[dd.end - 1]);
            assert forall|j: int| 0 <= j < nst.arena[i].fields.len() implies field_span_ok(
                src,
                #[trigger] nst.arena[i].fields[j].span,
            ) by {
                if j < st.arena[i].fields.len() {
                    assert(nst.arena[i].fields[j] == st.arena[i].fields[j]);
                }
            }
            assert(super::lexer::kw_repeated()[0] != super::lexer::kw_optional()[0]);
            assert(!(fv.repeated && fv.optional));
            assert(labels_ok(st.arena[i].fields));
            assert forall|j: int| 0 <= j < nst.arena[i].fields.len() implies !((
            #[trigger] nst.arena[i].fields[j]).repeated && nst.arena[i].fields[j].optional) by {
                if j < st.arena[i].fields.len() {
                    assert(nst.arena[i].fields[j] == st.arena[i].fields[j]);
                }
            }
        } else {
            assert(nst.arena[i].fields == st.arena[i].fields);
            assert(labels_ok(st.arena[i].fields));
        }
    }
    assert forall|i: int| 0 <= i < nst.arena.len() implies labels_ok((#[trigger] nst.arena[i]).fields) by {
        assert(node_spans_ok(src, nst.arena[i]));
    }
    assert forall|i: int, j: int|
        0 <= i < nst.arena.len() && 0 <= j < nst.arena[i].children.len() implies i
        < #[trigger] nst.arena[i].children[j] < nst.arena.len() && nst.arena[nst.arena[i].children[j] as int].nesting_depth
        == nst.arena[i].nesting_depth + 1 by {
        assert(nst.arena[i].children == st.arena[i].children);
        let c = st.arena[i].children[j];
        assert(nst.arena[c as int].nesting_depth == st.arena[c as int].nesting_depth);
    }
    assert forall|k: int| 0 <= k < nst.stack.len() implies (#[trigger] nst.stack[k]).0
        < nst.arena.len() && nst.arena[nst.stack[k].0 as int].nesting_depth == k by {
        assert(nst.stack[k] == st.stack[k]);
        assert(st.stack[k].0 < st.arena.len());
    }
    assert forall|k: int| 0 <= k < nst.roots.len() implies #[trigger] nst.roots[k]
        < nst.arena.len() && nst.arena[nst.roots[k] as int].nesting_depth == 0 by {
        assert(nst.roots[k] == st.roots[k]);
    }
}

proof fn lemma_step_inv(src: Seq<u8>, pos: int, e: int, st: ParseState)
    requires
        parse_inv(src, st),
        0 <= pos <= e <= src.len() <= usize::MAX,
        st.arena.len() <= pos,
    ensures
        parse_inv(src, step(st, src.subrange(pos, e), pos)),
        step(st, src.subrange(pos, e), pos).arena.len() <= e,
{
    let l = src.subrange(pos, e);
    let d = st.depth + super::brace_delta(l);
    if let Some((a, b)) = message_header(l) {
        lemma_open_message_inv(src, pos, e, st, a, b, d);
    } else {
        lemma_close_inv(src, pos, e, st, d);
    }
}

proof fn lemma_run_inv(src: Seq<u8>, pos: int, st: ParseState)
    requires
        parse_inv(src, st),
        0 <= pos <= src.len() <= usize::MAX,
        st.arena.len() <= pos,
    ensures
        parse_inv(src, run(src, pos, st)),
        run(src, pos, st).arena.len() <= src.len(),
    decreases src.len() - pos,
{
    let e = line_end(src, pos);
    lemma_find_from(src, pos, crate::text::NEWLINE);
    lemma_step_inv(src, pos, e, st);
    if e < src.len() {
        lemma_run_inv(src, e + 1, step(st, src.subrange(pos, e), pos));
    }
}


/// `m` is the message tree of some arena node.
pub open spec fn is_tree(arena: Seq<NodeView>, m: MessageView) -> bool {
    exists|i: int| 0 <= i < arena.len() && m == tree(arena, i)
}

/// A tree's nested messages are the trees of the node's children.
proof fn lemma_tree_nested(arena: Seq<NodeView>, i: int)
    requires
        arena_wf(arena),
        0 <= i < arena.len(),
    ensures
        tree(arena, i).nested.len() == arena[i].children.len(),
        forall|k: int|
            0 <= k < tree(arena, i).nested.len() ==> #[trigger] tree(arena, i).nested[k] == tree(
                arena,
                arena[i].children[k] as int,
            ) && i < arena[i].children[k] < arena.len(),
{
}

/// Every message of the depth-first listing of arena trees is an arena tree.
proof fn lemma_flatten_trees(arena: Seq<NodeView>, ms: Seq<MessageView>)
    requires
        arena_wf(arena),
        forall|k: int| 0 <= k < ms.len() ==> is_tree(arena, #[trigger] ms[k]),
    ensures
        forall|k: int| 0 <= k < flatten(ms).len() ==> is_tree(arena, #[trigger] flatten(ms)[k]),
    decreases ms,
{
    if ms.len() > 0 {
        assert(is_tree(arena, ms[0]));
        let i = choose|i: int| 0 <= i < arena.len() && ms[0] == tree(arena, i);
        lemma_tree_nested(arena, i);
        let nested = ms[0].nested;
        assert forall|k: int| 0 <= k < nested.len() implies is_tree(arena, #[trigger] nested[k]) by {
            assert(nested[k] == tree(arena, arena[i].children[k] as int));
        }
        lemma_flatten_trees(arena, nested);
        let rest = ms.drop_first();
        assert forall|k: int| 0 <= k < rest.len() implies is_tree(arena, #[trigger] rest[k]) by {
            assert(rest[k] == ms[k + 1]);
        }
        lemma_flatten_trees(arena, rest);
        let f = flatten(ms);
        assert(f == seq![ms[0]] + flatten(nested) + flatten(rest));
        assert forall|k: int| 0 <= k < f.len() implies is_tree(arena, #[trigger] f[k]) by {
            if k == 0 {
            } else if k < 1 + flatten(nested).len() {
                assert(f[k] == flatten(nested)[k - 1]);
            } else {
                assert(f[k] == flatten(rest)[k - 1 - flatten(nested).len()]);
            }
        }
    }
}

/// The final parser state and the trees of its roots.
proof fn lemma_parsed_trees(src: Seq<u8>, path: Seq<u8>)
    requires
        src.len() <= usize::MAX,
    ensures
        parse_inv(src, run(src, 0, initial_state())),
        forall|k: int|
            0 <= k < flatten(parsed(src, path).messages).len() ==> is_tree(
                run(src, 0, initial_state()).arena,
                #[trigger] flatten(parsed(src, path).messages)[k],
            ),
{
    let st0 = initial_state();
    assert(parse_inv(src, st0));
    lemma_run_inv(src, 0, st0);
    let st = run(src, 0, st0);
    let ms = parsed(src, path).messages;
    assert forall|k: int| 0 <= k < ms.len() implies is_tree(st.arena, #[trigger] ms[k]) by {
        assert(ms[k] == tree(st.arena, st.roots[k] as int));
        assert(st.roots[k] < st.arena.len());
    }
    lemma_flatten_trees(st.arena, ms);
}

/// Every span the parser records lies within the source: each message's
/// span covers exactly its name, and each field's span stays inside the text
/// and ends at the `;` that closes the declaration.
pub proof fn law_spans_in_bounds(src: Seq<u8>, path: Seq<u8>)
    requires
        src.len() <= usize::MAX,
    ensures
        forall|k: int|
            0 <= k < flatten(parsed(src, path).messages).len() ==> message_spans_ok(
                src,
                #[trigger] flatten(parsed(src, path).messages)[k],
            ),
{
    lemma_parsed_trees(src, path);
    let st = run(src, 0, initial_state());
    let all = flatten(parsed(src, path).messages);
    assert forall|k: int| 0 <= k < all.len() implies message_spans_ok(src, #[trigger] all[k]) by {
        assert(is_tree(st.arena, all[k]));
        let i = choose|i: int| 0 <= i < st.arena.len() && all[k] == tree(st.arena, i);
        assert(node_spans_ok(src, st.arena[i]));
    }
}

/// The spans of each top-level message and of its fields lie within the source.
pub(crate) proof fn lemma_top_level_spans(src: Seq<u8>, path: Seq<u8>)
    requires
        src.len() <= usize::MAX,
    ensures
        forall|k: int|
            0 <= k < parsed(src, path).messages.len() ==> message_spans_ok(
                src,
                #[trigger] parsed(src, path).messages[k],
            ),
{
    lemma_parsed_trees(src, path);
    let st = run(src, 0, initial_state());
    let ms = parsed(src, path).messages;
    assert forall|k: int| 0 <= k < ms.len() implies message_spans_ok(src, #[trigger] ms[k]) by {
        assert(ms[k] == tree(st.arena, st.roots[k] as int));
        assert(st.roots[k] < st.arena.len());
        assert(node_spans_ok(src, st.arena[st.roots[k] as int]));
    }
}

/// Messages whose metrics are all at most `b` have a metric of at most `b`.
proof fn lemma_chain_depth_bound(ms: Seq<MessageView>, b: nat)
    requires
        forall|j: int| 0 <= j < ms.len() ==> message_depth(#[trigger] ms[j]) <= b,
    ensures
        chain_depth(ms) <= b,
    decreases ms.len(),
{
    if ms.len() > 0 {
        let p = ms.drop_last();
        assert forall|j: int| 0 <= j < p.len() implies message_depth(#[trigger] p[j]) <= b by {
            assert(p[j] == ms[j]);
        }
        lemma_chain_depth_bound(p, b);
        assert(ms.last() == ms[ms.len() - 1]);
    }
}

/// The metric of the tree at arena index `i` is bounded by the number of
/// nodes from `i` on and the node's depth.
proof fn lemma_tree_metric(st: ParseState, i: int)
    requires
        wf(st),
        depths_ok(st),
        0 <= i < st.arena.len(),
    ensures
        message_depth(tree(st.arena, i)) <= (st.arena.len() - i) * (st.arena[i].nesting_depth + st.arena.len() - i),
    decreases st.arena.len() - i,
{
    let arena = st.arena;
    let n = arena.len() as int;
    let d = arena[i].nesting_depth as int;
    let k = n - i - 1;
    let m = tree(arena, i);
    lemma_tree_nested(arena, i);
    let b = (k * (d + 1 + k)) as nat;
    assert(k >= 0);
    assert(0 <= k * (d + 1 + k)) by (nonlinear_arith)
        requires
            k >= 0,
            d >= 0,
    ;
    assert forall|j: int| 0 <= j < m.nested.len() implies message_depth(#[trigger] m.nested[j]) <= b by {
        let c = arena[i].children[j] as int;
        assert(m.nested[j] == tree(arena, c));
        assert(i < c < n);
        assert(arena[c].nesting_depth == d + 1);
        lemma_tree_metric(st, c);
        let kc = n - c;
        assert(kc * (d + 1 + kc) <= k * (d + 1 + k)) by (nonlinear_arith)
            requires
                0 <= kc <= k,
                d >= 0,
        ;
    }
    lemma_chain_depth_bound(m.nested, b);
    assert(message_depth(m) == d + chain_depth(m.nested));
    assert(d + k * (d + 1 + k) <= (k + 1) * (d + k + 1)) by (nonlinear_arith)
        requires
            k >= 0,
            d >= 0,
    ;
}

/// The nesting metric of a parsed file is at most the square of the
/// source's length; so every source of at most 65535 bytes parses to a
/// file whose metric fits in a `usize`, and can be scanned.
pub proof fn law_nesting_metric_bounded(src: Seq<u8>, path: Seq<u8>)
    requires
        src.len() <= usize::MAX,
    ensures
        nesting_depth_of(parsed(src, path)) <= src.len() * src.len(),
        src.len() <= 65535 ==> nesting_depth_of(parsed(src, path)) <= usize::MAX,
{
    let st0 = initial_state();
    assert(parse_inv(src, st0));
    lemma_run_inv(src, 0, st0);
    let st = run(src, 0, st0);
    let ms = parsed(src, path).messages;
    let n = st.arena.len() as int;
    let b = (n * n) as nat;
    assert(0 <= n * n) by (nonlinear_arith);
    assert forall|j: int| 0 <= j < ms.len() implies message_depth(#[trigger] ms[j]) <= b by {
        let r = st.roots[j] as int;
        assert(ms[j] == tree(st.arena, r));
        assert(0 <= r < n);
        assert(st.arena[r].nesting_depth == 0);
        lemma_tree_metric(st, r);
        assert((n - r) * (n - r) <= n * n) by (nonlinear_arith)
            requires
                0 <= r < n,
        ;
    }
    lemma_chain_depth_bound(ms, b);
    assert(n * n <= src.len() * src.len()) by (nonlinear_arith)
        requires
            0 <= n <= src.len(),
    ;
    if src.len() <= 65535 {
        assert(src.len() * src.len() <= 65535 * 65535) by (nonlinear_arith)
            requires
                src.len() <= 65535,
        ;
    }
}

/// A message's `nesting_depth` is the depth at which it was declared: top-level
/// messages have 0, and each nested message one more than its parent.
pub proof fn law_nesting_depth_is_declaration_depth(src: Seq<u8>, path: Seq<u8>)
    requires
        src.len() <= usize::MAX,
    ensures
        forall|k: int|
            0 <= k < parsed(src, path).messages.len() ==> (#[trigger] parsed(
                src,
                path,
            ).messages[k]).nesting_depth == 0,
        forall|k: int, j: int|
            0 <= k < flatten(parsed(src, path).messages).len() && 0 <= j < flatten(
                parsed(src, path).messages,
            )[k].nested.len() ==> (#[trigger] flatten(parsed(src, path).messages)[k].nested[j]).nesting_depth
                == flatten(parsed(src, path).messages)[k].nesting_depth + 1,
{
    lemma_parsed_trees(src, path);
    let st = run(src, 0, initial_state());
    let ms = parsed(src, path).messages;
    let all = flatten(ms);
    assert forall|k: int| 0 <= k < ms.len() implies (#[trigger] ms[k]).nesting_depth == 0 by {
        assert(ms[k] == tree(st.arena, st.roots[k] as int));
        assert(st.roots[k] < st.arena.len());
    }
    assert forall|k: int, j: int| 0 <= k < all.len() && 0 <= j < all[k].nested.len() implies (
    #[trigger] all[k].nested[j]).nesting_depth == all[k].nesting_depth + 1 by {
        assert(is_tree(st.arena, all[k]));
        let i = choose|i: int| 0 <= i < st.arena.len() && all[k] == tree(st.arena, i);
        lemma_tree_nested(st.arena, i);
        let c = st.arena[i].children[j];
        assert(all[k].nested[j] == tree(st.arena, c as int));
    }
}


/// `m` heads a linear chain of messages at levels `k` to `d - 1`: each
/// declared at its level, each but the last holding exactly the next.
pub open spec fn linear_chain(m: MessageView, k: nat, d: nat) -> bool
    decreases d - k,
{
    &&& m.nesting_depth == k
    &&& if k + 1 < d {
        m.nested.len() == 1 && linear_chain(m.nested[0], k + 1, d)
    } else {
        m.nested.len() == 0
    }
}

proof fn lemma_linear_chain(m: MessageView, k: nat, d: nat)
    requires
        k < d,
        linear_chain(m, k, d),
    ensures
        2 * message_depth(m) == d * (d - 1) - k * (k - 1),
    decreases d - k,
{
    if k + 1 < d {
        lemma_linear_chain(m.nested[0], k + 1, d);
        assert(m.nested.drop_last().len() == 0);
        assert(chain_depth(m.nested.drop_last()) == 0);
        assert(m.nested.last() == m.nested[0]);
        assert(chain_depth(m.nested) == message_depth(m.nested[0]));
        assert(2 * k + (d * (d - 1) - (k + 1) * k) == d * (d - 1) - k * (k - 1)) by (nonlinear_arith);
    } else {
        assert(chain_depth(m.nested) == 0);
        assert(d == k + 1);
        assert(2 * k == (k + 1) * k - k * (k - 1)) by (nonlinear_arith);
    }
}

/// For a linear chain of `d` levels the nesting metric is
/// `0 + 1 + … + (d-1)`.
pub proof fn law_linear_chain_depth(m: MessageView, d: nat)
    requires
        d >= 1,
        linear_chain(m, 0, d),
    ensures
        chain_depth(seq![m]) == d * (d - 1) / 2,
{
    lemma_linear_chain(m, 0, d);
    let ms = seq![m];
    assert(ms.drop_last().len() == 0);
    assert(chain_depth(ms.drop_last()) == 0);
    assert(ms.last() == m);
    assert(chain_depth(ms) == message_depth(m));
}


/// No parsed field is both `repeated` and `optional`.
pub proof fn law_labels_exclusive(src: Seq<u8>, path: Seq<u8>)
    requires
        src.len() <= usize::MAX,
    ensures
        forall|k: int|
            0 <= k < flatten(parsed(src, path).messages).len() ==> labels_ok(
                (#[trigger] flatten(parsed(src, path).messages)[k]).fields,
            ),
{
    lemma_parsed_trees(src, path);
    let st = run(src, 0, initial_state());
    let all = flatten(parsed(src, path).messages);
    assert forall|k: int| 0 <= k < all.len() implies labels_ok((#[trigger] all[k]).fields) by {
        assert(is_tree(st.arena, all[k]));
        let i = choose|i: int| 0 <= i < st.arena.len() && all[k] == tree(st.arena, i);
        assert(labels_ok(st.arena[i].fields));
    }
}

/// `pair` is the self reference of field `x` of a message named `name`:
/// `x` is typed by `name`, and the pair is the message and field names.
pub open spec fn pair_of_field(pair: (Seq<u8>, Seq<u8>), name: Seq<u8>, x: FieldView) -> bool {
    x.ty == name && pair == (name, x.name)
}

/// The self references among fields `fs` of a message named `name`.
proof fn lemma_self_refs(name: Seq<u8>, fs: Seq<FieldView>)
    ensures
        forall|j: int| 0 <= j < fs.len() && (#[trigger] fs[j]).ty == name ==> self_refs(name, fs).contains((name, fs[j].name)),
        forall|q: int|
            #![trigger self_refs(name, fs)[q]]
            0 <= q < self_refs(name, fs).len() ==> exists|j: int|
                0 <= j < fs.len() && pair_of_field(self_refs(name, fs)[q], name, #[trigger] fs[j]),
    decreases fs.len(),
{
    if fs.len() > 0 {
        let p = fs.drop_last();
        lemma_self_refs(name, p);
        let a = self_refs(name, p);
        let r = self_refs(name, fs);
        let tail: Seq<(Seq<u8>, Seq<u8>)> = if fs.last().ty == name { seq![(name, fs.last().name)] } else { Seq::empty() };
        assert(r == a + tail);
        assert forall|j: int| 0 <= j < fs.len() && (#[trigger] fs[j]).ty == name implies r.contains((name, fs[j].name)) by {
            if j < p.len() {
                assert(p[j] == fs[j]);
                let k = choose|k: int| 0 <= k < a.len() && a[k] == (name, p[j].name);
                assert(r[k] == a[k]);
            } else {
                assert(fs.last() == fs[j]);
                assert(r[a.len() as int] == (name, fs[j].name));
            }
        }
        assert forall|q: int| #![trigger r[q]] 0 <= q < r.len() implies exists|j: int|
            0 <= j < fs.len() && pair_of_field(r[q], name, #[trigger] fs[j]) by {
            if q < a.len() {
                assert(r[q] == a[q]);
                let j = choose|j: int| 0 <= j < p.len() && pair_of_field(a[q], name, #[trigger] p[j]);
                assert(fs[j] == p[j]);
            } else {
                assert(fs.last() == fs[fs.len() - 1]);
            }
        }
    } else {
        assert(self_refs(name, fs).len() == 0);
    }
}

/// A field of a top-level message is reported as a self reference exactly
/// when its type is the message's own name, whatever its label
/// (`repeated`, `optional` or none): every such field's (message, field)
/// pair is among the references, and every reference is such a pair.
pub proof fn law_self_references_are_self_typed_fields(ms: Seq<MessageView>)
    ensures
        forall|i: int, j: int|
            0 <= i < ms.len() && 0 <= j < ms[i].fields.len() && (#[trigger] ms[i].fields[j]).ty == ms[i].name
                ==> recursive_refs(ms).contains((ms[i].name, ms[i].fields[j].name)),
        forall|q: int|
            #![trigger recursive_refs(ms)[q]]
            0 <= q < recursive_refs(ms).len() ==> exists|i: int, j: int|
                0 <= i < ms.len() && 0 <= j < ms[i].fields.len() && pair_of_field(
                    recursive_refs(ms)[q],
                    ms[i].name,
                    #[trigger] ms[i].fields[j],
                ),
    decreases ms.len(),
{
    if ms.len() > 0 {
        let p = ms.drop_last();
        law_self_references_are_self_typed_fields(p);
        let m = ms.last();
        lemma_self_refs(m.name, m.fields);
        let a = recursive_refs(p);
        let b = self_refs(m.name, m.fields);
        let r = recursive_refs(ms);
        assert(r == a + b);
        assert(m == ms[ms.len() - 1]);
        assert forall|i: int, j: int|
            0 <= i < ms.len() && 0 <= j < ms[i].fields.len() && (#[trigger] ms[i].fields[j]).ty == ms[i].name
            implies r.contains((ms[i].name, ms[i].fields[j].name)) by {
            if i < p.len() {
                assert(p[i] == ms[i]);
                assert(p[i].fields[j].ty == p[i].name);
                let k = choose|k: int| 0 <= k < a.len() && a[k] == (p[i].name, p[i].fields[j].name);
                assert(r[k] == a[k]);
            } else {
                assert(m.fields[j].ty == m.name);
                let k = choose|k: int| 0 <= k < b.len() && b[k] == (m.name, m.fields[j].name);
                assert(r[a.len() + k] == b[k]);
            }
        }
        assert forall|q: int| #![trigger r[q]] 0 <= q < r.len() implies exists|i: int, j: int|
            0 <= i < ms.len() && 0 <= j < ms[i].fields.len() && pair_of_field(r[q], ms[i].name, #[trigger] ms[i].fields[j]) by {
            if q < a.len() {
                assert(r[q] == a[q]);
                let (i, j) = choose|i: int, j: int|
                    0 <= i < p.len() && 0 <= j < p[i].fields.len() && pair_of_field(a[q], p[i].name, #[trigger] p[i].fields[j]);
                assert(ms[i] == p[i]);
            } else {
                assert(r[q] == b[q - a.len()]);
                let j = choose|j: int|
                    0 <= j < m.fields.len() && pair_of_field(b[q - a.len()], m.name, #[trigger] m.fields[j]);
                assert(ms[ms.len() - 1].fields[j] == m.fields[j]);
            }
        }
    } else {
        assert(recursive_refs(ms).len() == 0);
    }
}

} // verus!
