//! Rendering fills every placeholder: a template read as literal text and
//! `%TOKEN%` placeholders, rendered with values that hold no `%`, keeps its
//! literal text and holds each value where its placeholder stood.
use vstd::prelude::*;
use crate::text::{has_at, replace_all};

verus! {

broadcast use vstd::seq::group_seq_axioms;

/// `%`
pub const PERCENT_SIGN: u8 = 37;

/// A byte that may follow the leading `%` of a placeholder: an uppercase
/// ASCII letter.
pub open spec fn upper_byte(c: u8) -> bool {
    65 <= c <= 90
}

/// A byte of a placeholder's name: an uppercase ASCII letter or `_`.
pub open spec fn name_byte(c: u8) -> bool {
    upper_byte(c) || c == 95
}

/// `s` holds no `%`.
pub open spec fn no_percent(s: Seq<u8>) -> bool {
    forall|i: int| 0 <= i < s.len() ==> #[trigger] s[i] != PERCENT_SIGN
}

/// `p` is `%NAME%`, where `NAME` starts with an uppercase letter and goes on
/// with uppercase letters and `_`.
pub open spec fn is_placeholder(p: Seq<u8>) -> bool {
    &&& p.len() >= 3
    &&& p[0] == PERCENT_SIGN
    &&& p[p.len() - 1] == PERCENT_SIGN
    &&& upper_byte(p[1])
    &&& forall|i: int| 1 <= i < p.len() - 1 ==> name_byte(#[trigger] p[i])
}

/// A piece of a template: literal text, or the placeholder with an index.
pub enum Piece {
    Lit(Seq<u8>),
    Tok(int),
}

/// The text of `ps` once the placeholders with an index below `k` are
/// replaced by their values: a placeholder `j` reads `vals[j]` when `j < k`,
/// else `phs[j]`.
pub open spec fn pieces_text(ps: Seq<Piece>, phs: Seq<Seq<u8>>, vals: Seq<Seq<u8>>, k: int) -> Seq<u8>
    decreases ps.len(),
{
    if ps.len() == 0 {
        Seq::empty()
    } else {
        let head = match ps[0] {
            Piece::Lit(b) => b,
            Piece::Tok(j) => if j < k {
                vals[j]
            } else {
                phs[j]
            },
        };
        head + pieces_text(ps.drop_first(), phs, vals, k)
    }
}

/// `b` holds a byte that is no placeholder-name byte.
pub open spec fn has_stop(b: Seq<u8>) -> bool {
    exists|t: int| 0 <= t < b.len() && !name_byte(#[trigger] b[t])
}

/// What follows the placeholder at `p` cannot be read as the tail of
/// another placeholder: the template ends, or literal text with a stop byte
/// follows, or a placeholder replaced no earlier, or a placeholder replaced
/// earlier and then literal text with a stop byte.
pub open spec fn follows_ok(ps: Seq<Piece>, p: int, j: int) -> bool {
    ||| p + 1 == ps.len()
    ||| (p + 1 < ps.len() && lit_with_stop(ps[p + 1]))
    ||| (p + 1 < ps.len() && tok_from(ps[p + 1], j))
    ||| (p + 2 < ps.len() && tok_before(ps[p + 1], j) && lit_with_stop(ps[p + 2]))
}

/// Literal text with a stop byte.
pub open spec fn lit_with_stop(pc: Piece) -> bool {
    match pc {
        Piece::Lit(b) => has_stop(b),
        Piece::Tok(_) => false,
    }
}

/// A placeholder with an index of at least `j`.
pub open spec fn tok_from(pc: Piece, j: int) -> bool {
    match pc {
        Piece::Lit(_) => false,
        Piece::Tok(j2) => j2 >= j,
    }
}

/// A placeholder with an index below `j`.
pub open spec fn tok_before(pc: Piece, j: int) -> bool {
    match pc {
        Piece::Lit(_) => false,
        Piece::Tok(j2) => j2 < j,
    }
}

/// The pieces are a well-formed template over `n` placeholders: literal
/// text holds no `%`, indices are in range, and each placeholder is
/// followed as [`follows_ok`] says.
pub open spec fn pieces_ok(ps: Seq<Piece>, n: int) -> bool {
    forall|p: int|
        0 <= p < ps.len() ==> match #[trigger] ps[p] {
            Piece::Lit(b) => no_percent(b),
            Piece::Tok(j) => 0 <= j < n && follows_ok(ps, p, j),
        }
}

/// The placeholders are well formed and pairwise different.
pub open spec fn placeholders_ok(phs: Seq<Seq<u8>>) -> bool {
    &&& forall|j: int| 0 <= j < phs.len() ==> is_placeholder(#[trigger] phs[j])
    &&& forall|a: int, b: int| 0 <= a < b < phs.len() ==> #[trigger] phs[a] != #[trigger] phs[b]
}

/// The values hold no `%`.
pub open spec fn values_ok(vals: Seq<Seq<u8>>, n: int) -> bool {
    vals.len() == n && forall|j: int| 0 <= j < n ==> no_percent(#[trigger] vals[j])
}

/// Replacing text that cannot start a match leaves it in front.
proof fn lemma_replace_skip(x: Seq<u8>, y: Seq<u8>, pat: Seq<u8>, rep: Seq<u8>)
    requires
        pat.len() > 0,
        forall|i: int| 0 <= i < x.len() ==> !has_at(x + y, i, pat),
    ensures
        replace_all(x + y, pat, rep) == x + replace_all(y, pat, rep),
    decreases x.len(),
{
    let s = x + y;
    if x.len() == 0 {
        assert(s =~= y);
        assert(x + replace_all(y, pat, rep) =~= replace_all(y, pat, rep));
    } else if s.len() < pat.len() {
        assert(y.len() < pat.len());
        assert(x + y =~= s);
    } else {
        assert(!has_at(s, 0, pat));
        assert(s.take(pat.len() as int) != pat) by {
            if s.take(pat.len() as int) == pat {
                assert(s.subrange(0, pat.len() as int) =~= s.take(pat.len() as int));
            }
        }
        let x2 = x.drop_first();
        assert(s.drop_first() =~= x2 + y);
        assert forall|i: int| 0 <= i < x2.len() implies !has_at(x2 + y, i, pat) by {
            assert(!has_at(s, i + 1, pat));
            if has_at(x2 + y, i, pat) {
                assert(s.subrange(i + 1, i + 1 + pat.len()) =~= (x2 + y).subrange(i, i + pat.len()));
            }
        }
        lemma_replace_skip(x2, y, pat, rep);
        assert(s[0] == x[0]);
        assert(seq![x[0]] + (x2 + replace_all(y, pat, rep)) =~= x + replace_all(y, pat, rep));
    }
}

/// A literal with a stop byte, perhaps after a value, cannot continue the
/// `%` that ends a placeholder into another placeholder.
proof fn lemma_stop_blocks(q: Seq<u8>, v: Seq<u8>, b: Seq<u8>, z: Seq<u8>, pat: Seq<u8>)
    requires
        is_placeholder(q),
        is_placeholder(pat),
        no_percent(v),
        no_percent(b),
        has_stop(b),
    ensures
        !has_at(q + (v + b + z), q.len() - 1, pat),
{
    let s = q + (v + b + z);
    let i = q.len() - 1;
    let w = v + b;
    if has_at(s, i, pat) {
        let m = pat.len() - 2;
        let t = choose|t: int| 0 <= t < b.len() && !name_byte(#[trigger] b[t]);
        let tt = v.len() + t;
        assert(w[tt] == b[t]);
        // The match reads pat[1..] from w onwards: all name bytes, then `%`.
        assert forall|u: int| 0 <= u <= m && u < w.len() implies s[i + 1 + u] == #[trigger] w[u] by {
            assert((v + b + z)[u] == w[u]);
        }
        if tt < m {
            assert(s[i + 1 + tt] == s.subrange(i, i + pat.len())[1 + tt]);
            assert(name_byte(pat[1 + tt]));
        } else {
            assert(m < w.len());
            assert(s[i + 1 + m] == s.subrange(i, i + pat.len())[1 + m]);
            assert(pat[1 + m] == PERCENT_SIGN);
            if m < v.len() {
                assert(w[m] == v[m]);
            } else {
                assert(w[m] == b[m - v.len()]);
            }
        }
    }
}

/// The `%` that ends a placeholder, followed by another `%`, starts no match.
proof fn lemma_percent_blocks(q: Seq<u8>, y: Seq<u8>, pat: Seq<u8>)
    requires
        is_placeholder(q),
        is_placeholder(pat),
        y.len() > 0,
        y[0] == PERCENT_SIGN,
    ensures
        !has_at(q + y, q.len() - 1, pat),
{
    let s = q + y;
    let i = q.len() - 1;
    if has_at(s, i, pat) {
        assert(s[i + 1] == s.subrange(i, i + pat.len())[1]);
        assert(s[i + 1] == y[0]);
    }
}

/// A placeholder other than `pat` starts no match of `pat` before its last byte.
proof fn lemma_other_placeholder(q: Seq<u8>, y: Seq<u8>, pat: Seq<u8>)
    requires
        is_placeholder(q),
        is_placeholder(pat),
        q != pat,
    ensures
        forall|i: int| 0 <= i < q.len() - 1 ==> !has_at(q + y, i, pat),
{
    let s = q + y;
    assert forall|i: int| 0 <= i < q.len() - 1 implies !has_at(s, i, pat) by {
        if has_at(s, i, pat) {
            if i > 0 {
                assert(s[i] == q[i]);
                assert(s[i] == s.subrange(i, i + pat.len())[0]);
                assert(name_byte(q[i]));
            } else if pat.len() < q.len() {
                let e = pat.len() - 1;
                assert(s[e] == s.subrange(0, pat.len() as int)[e]);
                assert(s[e] == q[e]);
                assert(name_byte(q[e]));
            } else if pat.len() > q.len() {
                let e = q.len() - 1;
                assert(s[e] == s.subrange(0, pat.len() as int)[e]);
                assert(s[e] == q[e]);
                assert(name_byte(pat[e]));
            } else {
                assert forall|u: int| 0 <= u < q.len() implies q[u] == #[trigger] pat[u] by {
                    assert(s[u] == s.subrange(0, pat.len() as int)[u]);
                    assert(s[u] == q[u]);
                }
                assert(q =~= pat);
            }
        }
    }
}

/// The text of the pieces from `p` on.
proof fn lemma_text_skip(ps: Seq<Piece>, phs: Seq<Seq<u8>>, vals: Seq<Seq<u8>>, k: int)
    requires
        ps.len() > 0,
    ensures
        pieces_text(ps, phs, vals, k) == (match ps[0] {
            Piece::Lit(b) => b,
            Piece::Tok(j) => if j < k {
                vals[j]
            } else {
                phs[j]
            },
        }) + pieces_text(ps.drop_first(), phs, vals, k),
{
}

/// Pieces from `p` on of a well-formed template are well formed.
proof fn lemma_pieces_ok_tail(ps: Seq<Piece>, n: int)
    requires
        ps.len() > 0,
        pieces_ok(ps, n),
    ensures
        pieces_ok(ps.drop_first(), n),
{
    let t = ps.drop_first();
    assert forall|p: int| 0 <= p < t.len() implies match #[trigger] t[p] {
        Piece::Lit(b) => no_percent(b),
        Piece::Tok(j) => 0 <= j < n && follows_ok(t, p, j),
    } by {
        assert(t[p] == ps[p + 1]);
        match ps[p + 1] {
            Piece::Lit(b) => {},
            Piece::Tok(j) => {
                assert(follows_ok(ps, p + 1, j));
                if p + 2 < ps.len() {
                    assert(t[p + 1] == ps[p + 2]);
                }
                if p + 3 < ps.len() {
                    assert(t[p + 2] == ps[p + 3]);
                }
            },
        }
    }
}

/// Replacing placeholder `k` in the text at stage `k` gives the text at
/// stage `k + 1`.
pub proof fn lemma_replace_stage(ps: Seq<Piece>, phs: Seq<Seq<u8>>, vals: Seq<Seq<u8>>, k: int)
    requires
        placeholders_ok(phs),
        values_ok(vals, phs.len() as int),
        pieces_ok(ps, phs.len() as int),
        0 <= k < phs.len(),
    ensures
        replace_all(pieces_text(ps, phs, vals, k), phs[k], vals[k]) == pieces_text(ps, phs, vals, k + 1),
    decreases ps.len(),
{
    if ps.len() == 0 {
        assert(replace_all(Seq::<u8>::empty(), phs[k], vals[k]) == Seq::<u8>::empty());
    } else {
        let pat = phs[k];
        let rep = vals[k];
        let t = ps.drop_first();
        lemma_pieces_ok_tail(ps, phs.len() as int);
        lemma_replace_stage(t, phs, vals, k);
        let y = pieces_text(t, phs, vals, k);
        assert(ps[0] == ps[0]);
        assert(is_placeholder(pat));
        match ps[0] {
            Piece::Tok(j) => {
                assert(follows_ok(ps, 0, j));
                if j == k {
                    let s = pat + y;
                    assert(pieces_text(ps, phs, vals, k) == s);
                    assert(s.take(pat.len() as int) =~= pat);
                    assert(s.skip(pat.len() as int) =~= y);
                } else if j < k {
                    let x = vals[j];
                    assert(no_percent(x));
                    assert forall|i: int| 0 <= i < x.len() implies !has_at(x + y, i, pat) by {
                        if has_at(x + y, i, pat) {
                            assert((x + y)[i] == (x + y).subrange(i, i + pat.len())[0]);
                        }
                    }
                    lemma_replace_skip(x, y, pat, rep);
                } else {
                    let q = phs[j];
                    assert(q != pat);
                    lemma_other_placeholder(q, y, pat);
                    assert(!has_at(q + y, q.len() - 1, pat)) by {
                        if ps.len() == 1 {
                            assert(y.len() == 0);
                        } else {
                            lemma_text_skip(t, phs, vals, k);
                            match ps[1] {
                                Piece::Lit(b) => {
                                    if has_stop(b) {
                                        assert(y =~= Seq::<u8>::empty() + b + pieces_text(t.drop_first(), phs, vals, k));
                                        assert(no_percent(Seq::<u8>::empty()));
                                        lemma_stop_blocks(q, Seq::<u8>::empty(), b, pieces_text(t.drop_first(), phs, vals, k), pat);
                                    }
                                },
                                Piece::Tok(j2) => {
                                    if j2 >= k {
                                        assert(y[0] == phs[j2][0]);
                                        lemma_percent_blocks(q, y, pat);
                                    } else {
                                        assert(ps[2] == t.drop_first()[0]);
                                        lemma_text_skip(t.drop_first(), phs, vals, k);
                                        match ps[2] {
                                            Piece::Lit(b) => {
                                                let z = pieces_text(t.drop_first().drop_first(), phs, vals, k);
                                                assert(y =~= vals[j2] + b + z);
                                                lemma_stop_blocks(q, vals[j2], b, z, pat);
                                            },
                                            Piece::Tok(_) => {},
                                        }
                                    }
                                },
                            }
                        }
                    }
                    lemma_replace_skip(q, y, pat, rep);
                }
            },
            Piece::Lit(x) => {
                assert forall|i: int| 0 <= i < x.len() implies !has_at(x + y, i, pat) by {
                    if has_at(x + y, i, pat) {
                        assert((x + y)[i] == (x + y).subrange(i, i + pat.len())[0]);
                    }
                }
                lemma_replace_skip(x, y, pat, rep);
            },
        }
    }
}

/// `w` occurs in `s`.
pub open spec fn contains(s: Seq<u8>, w: Seq<u8>) -> bool {
    exists|i: int| 0 <= i && i + w.len() <= s.len() && #[trigger] s.subrange(i, i + w.len()) == w
}

/// Text in front keeps an occurrence.
proof fn lemma_contains_after(x: Seq<u8>, s: Seq<u8>, w: Seq<u8>)
    requires
        contains(s, w),
    ensures
        contains(x + s, w),
{
    let i = choose|i: int| 0 <= i && i + w.len() <= s.len() && #[trigger] s.subrange(i, i + w.len()) == w;
    assert((x + s).subrange(x.len() + i, x.len() + i + w.len()) =~= s.subrange(i, i + w.len()));
}

/// Once every placeholder is replaced, the text holds no `%`.
pub proof fn lemma_text_no_percent(ps: Seq<Piece>, phs: Seq<Seq<u8>>, vals: Seq<Seq<u8>>, k: int)
    requires
        pieces_ok(ps, phs.len() as int),
        values_ok(vals, phs.len() as int),
        k >= phs.len(),
    ensures
        no_percent(pieces_text(ps, phs, vals, k)),
    decreases ps.len(),
{
    if ps.len() > 0 {
        lemma_pieces_ok_tail(ps, phs.len() as int);
        lemma_text_no_percent(ps.drop_first(), phs, vals, k);
        let y = pieces_text(ps.drop_first(), phs, vals, k);
        let x = match ps[0] {
            Piece::Lit(b) => b,
            Piece::Tok(j) => vals[j],
        };
        assert(ps[0] == ps[0]);
        assert(no_percent(x));
        assert(pieces_text(ps, phs, vals, k) == x + y);
        assert forall|i: int| 0 <= i < (x + y).len() implies #[trigger] (x + y)[i] != PERCENT_SIGN by {
            if i < x.len() {
                assert((x + y)[i] == x[i]);
            } else {
                assert((x + y)[i] == y[i - x.len()]);
            }
        }
    }
}

/// Two replaced placeholders side by side leave their values side by side.
pub proof fn lemma_text_contains_pair(
    ps: Seq<Piece>,
    phs: Seq<Seq<u8>>,
    vals: Seq<Seq<u8>>,
    k: int,
    p: int,
    a: int,
    b: int,
)
    requires
        0 <= p,
        p + 1 < ps.len(),
        ps[p] == Piece::Tok(a),
        ps[p + 1] == Piece::Tok(b),
        a < k,
        b < k,
    ensures
        contains(pieces_text(ps, phs, vals, k), vals[a] + vals[b]),
    decreases p,
{
    let t = ps.drop_first();
    let x = match ps[0] {
        Piece::Lit(c) => c,
        Piece::Tok(j) => if j < k {
            vals[j]
        } else {
            phs[j]
        },
    };
    assert(pieces_text(ps, phs, vals, k) == x + pieces_text(t, phs, vals, k));
    if p == 0 {
        let z = pieces_text(t.drop_first(), phs, vals, k);
        assert(t[0] == ps[1]);
        assert(pieces_text(t, phs, vals, k) == vals[b] + z);
        let w = vals[a] + vals[b];
        let s = vals[a] + (vals[b] + z);
        assert(x == vals[a]);
        assert(pieces_text(ps, phs, vals, k) == s);
        assert(s.subrange(0, 0 + w.len() as int) =~= w);
    } else {
        assert(t[p - 1] == ps[p]);
        assert(t[p] == ps[p + 1]);
        lemma_text_contains_pair(t, phs, vals, k, p - 1, a, b);
        lemma_contains_after(x, pieces_text(t, phs, vals, k), vals[a] + vals[b]);
    }
}

} // verus!
