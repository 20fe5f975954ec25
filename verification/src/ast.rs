//! The abstract syntax tree of a Brainfuck program.

use vstd::prelude::*;

use crate::parse::{closes_at, depth, depth_step, lemma_depth_split, never_below};

verus! {

/// Brainfuck abstract syntax tree.
#[derive(Debug, PartialEq, Eq)]
pub enum Ast {
    /// `>`
    Right,
    /// `<`
    Left,
    /// `+`
    Inc,
    /// `-`
    Dec,
    /// `.`
    Output,
    /// `,`
    Input,
    /// `[`…`]`
    Loop(Vec<Ast>),
}

/// Whether a byte is one of the eight Brainfuck commands.
pub open spec fn is_command(c: u8) -> bool {
    c == 62 || c == 60 || c == 43 || c == 45 || c == 46 || c == 44 || c == 91 || c == 93
}

/// The commands of `s[i..j]`, in order, with every other byte left out.
pub open spec fn commands(s: Seq<u8>, i: int, j: int) -> Seq<u8>
    decreases j - i,
{
    if j <= i {
        Seq::empty()
    } else if is_command(s[j - 1]) {
        commands(s, i, j - 1).push(s[j - 1])
    } else {
        commands(s, i, j - 1)
    }
}

/// The source text of a sequence of AST nodes, with loops in brackets.
pub open spec fn render(v: Seq<Ast>) -> Seq<u8>
    decreases v,
{
    if v.len() == 0 {
        Seq::empty()
    } else {
        proof {
            assert(decreases_to!(v => v[v.len() - 1]));
        }
        render(v.drop_last()) + match v[v.len() - 1] {
            Ast::Right => seq![62u8],
            Ast::Left => seq![60u8],
            Ast::Inc => seq![43u8],
            Ast::Dec => seq![45u8],
            Ast::Output => seq![46u8],
            Ast::Input => seq![44u8],
            Ast::Loop(body) => seq![91u8] + render(body@) + seq![93u8],
        }
    }
}

/// Commands concatenate over adjacent ranges.
proof fn lemma_commands_split(s: Seq<u8>, i: int, j: int, k: int)
    requires
        i <= j <= k,
    ensures
        commands(s, i, k) == commands(s, i, j) + commands(s, j, k),
    decreases k - j,
{
    if j == k {
        assert(commands(s, i, j) + commands(s, j, k) =~= commands(s, i, j));
    } else {
        lemma_commands_split(s, i, j, k - 1);
        if is_command(s[k - 1]) {
            assert(commands(s, i, j) + commands(s, j, k - 1).push(s[k - 1]) =~= (commands(s, i, j)
                + commands(s, j, k - 1)).push(s[k - 1]));
        }
    }
}

/// Rendering one more node appends its text.
proof fn lemma_render_push(v: Seq<Ast>, a: Ast)
    ensures
        render(v.push(a)) == render(v) + render(seq![a]),
{
    assert(v.push(a).drop_last() =~= v);
    assert(seq![a].drop_last() =~= Seq::<Ast>::empty());
    assert(render(Seq::<Ast>::empty()) =~= Seq::<u8>::empty());
    assert(render(seq![a]) =~= Seq::<u8>::empty() + render(seq![a]));
}

/// The text of a single node.
proof fn lemma_render_one(a: Ast)
    ensures
        render(seq![a]) == match a {
            Ast::Right => seq![62u8],
            Ast::Left => seq![60u8],
            Ast::Inc => seq![43u8],
            Ast::Dec => seq![45u8],
            Ast::Output => seq![46u8],
            Ast::Input => seq![44u8],
            Ast::Loop(body) => seq![91u8] + render(body@) + seq![93u8],
        },
{
    let v = seq![a];
    assert(v.len() == 1);
    assert(v[0] == a);
    assert(v.drop_last() =~= Seq::<Ast>::empty());
    assert(render(Seq::<Ast>::empty()) =~= Seq::<u8>::empty());
    let t = match a {
        Ast::Right => seq![62u8],
        Ast::Left => seq![60u8],
        Ast::Inc => seq![43u8],
        Ast::Dec => seq![45u8],
        Ast::Output => seq![46u8],
        Ast::Input => seq![44u8],
        Ast::Loop(body) => seq![91u8] + render(body@) + seq![93u8],
    };
    assert(render(v) == render(v.drop_last()) + t);
    assert(Seq::<u8>::empty() + t =~= t);
}

/// Parses commands from `start` up to the `]` that closes the loop opened
/// just before `start`, or up to the end. Returns the nodes, whether a `]`
/// ended them, and the position after it; `None` when a loop inside is
/// never closed.
#[verifier::rlimit(40)]
fn parse_block(src: &[u8], start: usize) -> (r: Option<(Vec<Ast>, bool, usize)>)
    requires
        start <= src@.len(),
    ensures
        ({
            let s = src@;
            let p0 = start as int;
            match r {
                Some((v, true, end)) => closes_at(s, p0, end - 1) && render(v@) == commands(s, p0, end - 1),
                Some((v, false, end)) => end == s.len() && never_below(s, p0) && depth(s, p0, s.len() as int)
                    == 0 && render(v@) == commands(s, p0, s.len() as int),
                None => never_below(s, p0) && depth(s, p0, s.len() as int) > 0,
            }
        }),
    decreases src@.len() - start,
{
    let ghost s = src@;
    let ghost p0 = start as int;
    let mut block: Vec<Ast> = Vec::new();
    let mut pos = start;
    proof {
        assert(render(block@) =~= commands(s, p0, p0));
    }
    while pos < src.len()
        invariant
            s == src@,
            p0 == start,
            p0 <= pos <= s.len(),
            depth(s, p0, pos as int) == 0,
            forall|q: int| p0 <= q <= pos ==> #[trigger] depth(s, p0, q) >= 0,
            render(block@) == commands(s, p0, pos as int),
        decreases s.len() - pos,
    {
        let ch = src[pos];
        let ghost pa = pos as int;
        pos = pos + 1;
        proof {
            assert(depth(s, p0, pa + 1) == depth(s, p0, pa) + depth_step(ch));
            assert(commands(s, p0, pa + 1) == if is_command(ch) {
                commands(s, p0, pa).push(ch)
            } else {
                commands(s, p0, pa)
            });
        }
        let ghost b0 = block@;
        if ch == 62 {
            block.push(Ast::Right);
        } else if ch == 60 {
            block.push(Ast::Left);
        } else if ch == 43 {
            block.push(Ast::Inc);
        } else if ch == 45 {
            block.push(Ast::Dec);
        } else if ch == 46 {
            block.push(Ast::Output);
        } else if ch == 44 {
            block.push(Ast::Input);
        } else if ch == 91 {
            let ghost pk = pos as int;
            match parse_block(src, pos) {
                Some((body, true, end)) => {
                    let ghost c = end - 1;
                    let ghost bv = body@;
                    block.push(Ast::Loop(body));
                    pos = end;
                    proof {
                        lemma_depth_split(s, p0, pa + 1, end as int);
                        lemma_depth_split(s, pk, c, end as int);
                        assert forall|q: int| p0 <= q <= end implies #[trigger] depth(s, p0, q) >= 0 by {
                            if q > pa + 1 {
                                lemma_depth_split(s, p0, pa + 1, q);
                                if q <= c {
                                    assert(depth(s, pk, q) >= 0);
                                } else {
                                    assert(q == end);
                                }
                            } else if q == pa + 1 {
                            } else {
                                assert(depth(s, p0, q) >= 0);
                            }
                        }
                        lemma_commands_split(s, p0, pa, end as int);
                        lemma_commands_split(s, pa, pk, end as int);
                        lemma_commands_split(s, pk, c, end as int);
                        assert(commands(s, pa, pa) =~= Seq::<u8>::empty());
                        assert(commands(s, pa, pk) =~= seq![91u8]);
                        assert(commands(s, c, c) =~= Seq::<u8>::empty());
                        assert(commands(s, c, end as int) =~= seq![93u8]);
                        lemma_render_push(b0, Ast::Loop(body));
                        lemma_render_one(Ast::Loop(body));
                        assert(render(block@) =~= commands(s, p0, end as int));
                    }
                },
                _ => {
                    proof {
                        assert forall|q: int| p0 <= q <= s.len() implies #[trigger] depth(s, p0, q) >= 0 by {
                            if q > pa + 1 {
                                lemma_depth_split(s, p0, pa + 1, q);
                                assert(depth(s, pk, q) >= 0);
                            } else if q == pa + 1 {
                            } else {
                                assert(depth(s, p0, q) >= 0);
                            }
                        }
                        lemma_depth_split(s, p0, pa + 1, s.len() as int);
                    }
                    return None;
                },
            }
        } else if ch == 93 {
            return Some((block, true, pos));
        }
        proof {
            if ch == 62 || ch == 60 || ch == 43 || ch == 45 || ch == 46 || ch == 44 {
                let a = block@.last();
                lemma_render_push(b0, a);
                assert(block@ == b0.push(a));
                lemma_render_one(a);
            }
        }
    }
    Some((block, false, pos))
}

impl Ast {
    /// Parses a Brainfuck program to an AST. It is refused when a `]`
    /// closes no loop or a `[` is never closed; else the AST holds the
    /// commands of the program in order, other bytes left out, with each
    /// loop holding the commands between its brackets.
    pub fn parse(src: &[u8]) -> (r: Option<Vec<Self>>)
        ensures
            match r {
                Some(v) => never_below(src@, 0) && depth(src@, 0, src@.len() as int) == 0 && render(v@)
                    == commands(src@, 0, src@.len() as int),
                None => !(never_below(src@, 0) && depth(src@, 0, src@.len() as int) == 0),
            },
    {
        match parse_block(src, 0) {
            Some((root, false, _)) => Some(root),
            Some((_, true, end)) => {
                proof {
                    let c = end - 1;
                    assert(depth(src@, 0, c + 1) == depth(src@, 0, c) + depth_step(src@[c]));
                    assert(depth(src@, 0, c + 1) < 0);
                }
                None
            },
            None => None,
        }
    }
}

/// Whether the brackets of `s` balance: its depth never goes below zero and
/// ends at zero.
pub open spec fn balanced(s: Seq<u8>) -> bool {
    never_below(s, 0) && depth(s, 0, s.len() as int) == 0
}

/// The depth within the first part of a concatenation is that of the part.
proof fn lemma_depth_prefix(a: Seq<u8>, b: Seq<u8>, q: int)
    requires
        0 <= q <= a.len(),
    ensures
        depth(a + b, 0, q) == depth(a, 0, q),
    decreases q,
{
    if q > 0 {
        lemma_depth_prefix(a, b, q - 1);
        assert((a + b)[q - 1] == a[q - 1]);
    }
}

/// The depth within the second part of a concatenation is that of the part.
proof fn lemma_depth_suffix(a: Seq<u8>, b: Seq<u8>, k: int)
    requires
        0 <= k <= b.len(),
    ensures
        depth(a + b, a.len() as int, a.len() + k) == depth(b, 0, k),
    decreases k,
{
    if k > 0 {
        lemma_depth_suffix(a, b, k - 1);
        assert((a + b)[a.len() + k - 1] == b[k - 1]);
    }
}

/// Balanced texts concatenate to a balanced text.
proof fn lemma_balanced_concat(a: Seq<u8>, b: Seq<u8>)
    requires
        balanced(a),
        balanced(b),
    ensures
        balanced(a + b),
{
    let s = a + b;
    let n = a.len() as int;
    assert forall|q: int| 0 <= q <= s.len() implies #[trigger] depth(s, 0, q) >= 0 by {
        if q <= n {
            lemma_depth_prefix(a, b, q);
        } else {
            lemma_depth_split(s, 0, n, q);
            lemma_depth_prefix(a, b, n);
            lemma_depth_suffix(a, b, q - n);
        }
    }
    lemma_depth_split(s, 0, n, s.len() as int);
    lemma_depth_prefix(a, b, n);
    lemma_depth_suffix(a, b, b.len() as int);
}

/// A balanced text in brackets is balanced.
proof fn lemma_balanced_wrap(b: Seq<u8>)
    requires
        balanced(b),
    ensures
        balanced(seq![91u8] + b + seq![93u8]),
{
    let open = seq![91u8];
    let close = seq![93u8];
    let inner = open + b;
    let s = inner + close;
    assert(depth(open, 0, 1) == 1) by {
        assert(depth(open, 0, 0) == 0);
    }
    assert forall|q: int| 0 <= q <= inner.len() implies #[trigger] depth(inner, 0, q) >= 1 || q == 0 by {
        if q >= 1 {
            lemma_depth_split(inner, 0, 1, q);
            lemma_depth_prefix(open, b, 1);
            lemma_depth_suffix(open, b, q - 1);
        }
    }
    lemma_depth_split(inner, 0, 1, inner.len() as int);
    lemma_depth_prefix(open, b, 1);
    lemma_depth_suffix(open, b, b.len() as int);
    assert forall|q: int| 0 <= q <= s.len() implies #[trigger] depth(s, 0, q) >= 0 by {
        if q <= inner.len() {
            lemma_depth_prefix(inner, close, q);
        } else {
            lemma_depth_prefix(inner, close, inner.len() as int);
            assert(s[q - 1] == 93u8);
        }
    }
    lemma_depth_prefix(inner, close, inner.len() as int);
    assert(s[s.len() - 1] == 93u8);
}

/// The commands of a text made of commands alone are the text itself.
proof fn lemma_commands_all(s: Seq<u8>, j: int)
    requires
        0 <= j <= s.len(),
        forall|k: int| 0 <= k < s.len() ==> is_command(#[trigger] s[k]),
    ensures
        commands(s, 0, j) == s.take(j),
    decreases j,
{
    if j == 0 {
        assert(s.take(0) =~= Seq::<u8>::empty());
    } else {
        lemma_commands_all(s, j - 1);
        assert(s.take(j) =~= s.take(j - 1).push(s[j - 1]));
    }
}

/// The text of an AST is made of commands alone and its brackets balance.
proof fn lemma_render_balanced(v: Seq<Ast>)
    ensures
        balanced(render(v)),
        forall|k: int| 0 <= k < render(v).len() ==> is_command(#[trigger] render(v)[k]),
    decreases v,
{
    if v.len() == 0 {
        assert(render(v) =~= Seq::<u8>::empty());
        assert(depth(render(v), 0, 0) == 0);
    } else {
        let a = v[v.len() - 1];
        assert(decreases_to!(v => a));
        lemma_render_balanced(v.drop_last());
        let t = match a {
            Ast::Right => seq![62u8],
            Ast::Left => seq![60u8],
            Ast::Inc => seq![43u8],
            Ast::Dec => seq![45u8],
            Ast::Output => seq![46u8],
            Ast::Input => seq![44u8],
            Ast::Loop(body) => seq![91u8] + render(body@) + seq![93u8],
        };
        assert(render(v) == render(v.drop_last()) + t);
        match a {
            Ast::Loop(body) => {
                assert(decreases_to!(a => body));
                assert(decreases_to!(body => body@));
                lemma_render_balanced(body@);
                lemma_balanced_wrap(render(body@));
                let w = render(body@);
                assert forall|k: int| 0 <= k < t.len() implies is_command(#[trigger] t[k]) by {
                    if 0 < k < t.len() - 1 {
                        assert(t[k] == w[k - 1]);
                    }
                }
            },
            _ => {
                assert(depth(t, 0, 0) == 0);
                assert(depth(t, 0, 1) == 0);
                assert forall|q: int| 0 <= q <= t.len() implies #[trigger] depth(t, 0, q) >= 0 by {}
            },
        }
        lemma_balanced_concat(render(v.drop_last()), t);
        let r = render(v.drop_last());
        assert forall|k: int| 0 <= k < render(v).len() implies is_command(#[trigger] render(v)[k]) by {
            if k < r.len() {
                assert(render(v)[k] == r[k]);
            } else {
                assert(render(v)[k] == t[k - r.len()]);
            }
        }
    }
}

/// Every AST is what `Ast::parse` accepts of its own text: its brackets
/// balance and its commands are the text itself, so parsing the text gives
/// an AST with the same text.
pub proof fn lemma_render_parses(v: Seq<Ast>)
    ensures
        never_below(render(v), 0),
        depth(render(v), 0, render(v).len() as int) == 0,
        commands(render(v), 0, render(v).len() as int) == render(v),
{
    lemma_render_balanced(v);
    lemma_commands_all(render(v), render(v).len() as int);
    assert(render(v).take(render(v).len() as int) =~= render(v));
}

/// Whether two sequences of AST nodes are the same tree: the same commands
/// in the same order, with loops holding the same trees.
pub open spec fn same_tree(a: Seq<Ast>, b: Seq<Ast>) -> bool
    decreases a,
{
    if a.len() == 0 {
        b.len() == 0
    } else {
        proof {
            assert(decreases_to!(a => a[a.len() - 1]));
        }
        &&& b.len() > 0
        &&& same_tree(a.drop_last(), b.drop_last())
        &&& match (a[a.len() - 1], b[b.len() - 1]) {
            (Ast::Loop(x), Ast::Loop(y)) => same_tree(x@, y@),
            (Ast::Loop(_), _) => false,
            (_, Ast::Loop(_)) => false,
            (p, q) => p == q,
        }
    }
}

/// The text of a nonempty sequence of nodes is its first nodes' text, then
/// the last node's.
proof fn lemma_render_last(v: Seq<Ast>)
    requires
        v.len() > 0,
    ensures
        render(v) == render(v.drop_last()) + match v[v.len() - 1] {
            Ast::Right => seq![62u8],
            Ast::Left => seq![60u8],
            Ast::Inc => seq![43u8],
            Ast::Dec => seq![45u8],
            Ast::Output => seq![46u8],
            Ast::Input => seq![44u8],
            Ast::Loop(body) => seq![91u8] + render(body@) + seq![93u8],
        },
{
}

/// A text that ends with a bracket that opens, then a balanced text, is not
/// balanced.
proof fn lemma_open_unbalances(p: Seq<u8>, r: Seq<u8>)
    requires
        balanced(r),
    ensures
        !balanced(p + seq![91u8] + r),
{
    let s = p + seq![91u8] + r;
    if balanced(s) {
        lemma_open_unbalances_balanced(p, r);
    }
}

/// The depth of `p + [ + r` just before the bracket is below zero when the
/// whole and `r` balance.
proof fn lemma_open_unbalances_balanced(p: Seq<u8>, r: Seq<u8>)
    requires
        balanced(r),
        balanced(p + seq![91u8] + r),
    ensures
        depth(p + seq![91u8] + r, 0, p.len() as int) < 0,
{
    let s = p + seq![91u8] + r;
    let n = p.len() as int;
    let pre = p + seq![91u8];
    assert(s == pre + r);
    lemma_depth_prefix(pre, r, n);
    lemma_depth_prefix(p, seq![91u8], n);
    lemma_depth_split(s, 0, n + 1, s.len() as int);
    lemma_depth_prefix(pre, r, n + 1);
    lemma_depth_suffix(pre, r, r.len() as int);
    assert(depth(pre, 0, n + 1) == depth(pre, 0, n) + depth_step(pre[n]));
    assert(pre[n] == 91u8);
}

/// When two texts of the form `a[b]` agree and the first inner text is
/// shorter, it follows a `[` at the end of the second inner text.
proof fn lemma_inner_suffix(rv: Seq<u8>, bx: Seq<u8>, rw: Seq<u8>, by: Seq<u8>)
    requires
        rv + (seq![91u8] + bx + seq![93u8]) == rw + (seq![91u8] + by + seq![93u8]),
        bx.len() < by.len(),
    ensures
        by == by.take(by.len() - bx.len() - 1) + seq![91u8] + bx,
{
    let t = rv + (seq![91u8] + bx + seq![93u8]);
    let k = by.len() - bx.len() - 1;
    assert(t.len() == rv.len() + bx.len() + 2);
    assert(t.len() == rw.len() + by.len() + 2);
    assert forall|i: int| 0 <= i < by.len() implies by[i] == (by.take(k) + seq![91u8] + bx)[i] by {
        assert(t[rw.len() + 1 + i] == by[i]);
        if i == k {
            assert(t[rv.len() as int] == 91u8);
        } else if i > k {
            assert(t[rv.len() + 1 + (i - k - 1)] == bx[i - k - 1]);
        }
    }
    assert(by =~= by.take(k) + seq![91u8] + bx);
}

/// Different trees have different texts: the text of a sequence of nodes
/// determines it.
pub proof fn lemma_render_injective(v: Seq<Ast>, w: Seq<Ast>)
    requires
        render(v) == render(w),
    ensures
        same_tree(v, w),
    decreases v,
{
    if v.len() == 0 {
        if w.len() > 0 {
            lemma_render_last(w);
        }
    } else {
        lemma_render_last(v);
        if w.len() == 0 {
            assert(render(w) =~= Seq::<u8>::empty());
        }
        lemma_render_last(w);
        let a = v[v.len() - 1];
        let b = w[w.len() - 1];
        assert(decreases_to!(v => a));
        let rv = render(v.drop_last());
        let rw = render(w.drop_last());
        let t = render(v);
        match (a, b) {
            (Ast::Loop(x), Ast::Loop(y)) => {
                let bx = render(x@);
                let by = render(y@);
                assert(decreases_to!(a => x));
                assert(decreases_to!(x => x@));
                lemma_render_balanced(x@);
                lemma_render_balanced(y@);
                if bx.len() < by.len() {
                    lemma_inner_suffix(rv, bx, rw, by);
                    lemma_open_unbalances(by.take(by.len() - bx.len() - 1), bx);
                } else if by.len() < bx.len() {
                    lemma_inner_suffix(rw, by, rv, bx);
                    lemma_open_unbalances(bx.take(bx.len() - by.len() - 1), by);
                } else {
                    assert(t == rv + (seq![91u8] + bx + seq![93u8]));
                    assert(t == rw + (seq![91u8] + by + seq![93u8]));
                    assert(t.len() == rv.len() + bx.len() + 2);
                    assert(t.len() == rw.len() + by.len() + 2);
                    assert(rv.len() == rw.len());
                    assert(bx =~= by) by {
                        assert forall|i: int| 0 <= i < bx.len() implies bx[i] == by[i] by {
                            assert(t[rv.len() + 1 + i] == bx[i]);
                            assert(t[rw.len() + 1 + i] == by[i]);
                        }
                    }
                    assert(rv =~= rw) by {
                        assert forall|i: int| 0 <= i < rv.len() implies rv[i] == rw[i] by {
                            assert(t[i] == rv[i]);
                            assert(t[i] == rw[i]);
                        }
                    }
                    lemma_render_injective(x@, y@);
                    lemma_render_injective(v.drop_last(), w.drop_last());
                }
            },
            (Ast::Loop(x), _) => {
                assert(t[t.len() - 1] == 93u8);
            },
            (_, Ast::Loop(y)) => {
                assert(t[t.len() - 1] == 93u8);
            },
            _ => {
                assert(t[t.len() - 1] == render(w)[render(w).len() - 1]);
                assert(rv =~= t.drop_last());
                assert(rw =~= t.drop_last());
                lemma_render_injective(v.drop_last(), w.drop_last());
            },
        }
    }
}

/// Trees stay the same when each gets one more node of the same tree.
proof fn lemma_same_tree_push(x: Seq<Ast>, y: Seq<Ast>, p: Ast, q: Ast)
    requires
        same_tree(x, y),
        same_tree(seq![p], seq![q]),
    ensures
        same_tree(x.push(p), y.push(q)),
{
    assert(x.push(p).drop_last() =~= x);
    assert(y.push(q).drop_last() =~= y);
    assert(seq![p].drop_last() =~= Seq::<Ast>::empty());
    assert(seq![q].drop_last() =~= Seq::<Ast>::empty());
    assert(seq![p][0] == p);
    assert(seq![q][0] == q);
}

/// A single node is the same tree as itself when it holds no loop, and as
/// a loop with the same body when it is a loop.
proof fn lemma_same_tree_one(p: Ast, q: Ast)
    requires
        match (p, q) {
            (Ast::Loop(x), Ast::Loop(y)) => same_tree(x@, y@),
            (Ast::Loop(_), _) => false,
            (_, Ast::Loop(_)) => false,
            (a, b) => a == b,
        },
    ensures
        same_tree(seq![p], seq![q]),
{
    assert(seq![p].drop_last() =~= Seq::<Ast>::empty());
    assert(seq![q].drop_last() =~= Seq::<Ast>::empty());
    assert(seq![p][0] == p);
    assert(seq![q][0] == q);
    assert(same_tree(Seq::<Ast>::empty(), Seq::<Ast>::empty()));
}

impl Clone for Ast {
    fn clone(&self) -> (r: Self)
        ensures
            same_tree(seq![*self], seq![r]),
        decreases self,
    {
        let r = match self {
            Ast::Right => Ast::Right,
            Ast::Left => Ast::Left,
            Ast::Inc => Ast::Inc,
            Ast::Dec => Ast::Dec,
            Ast::Output => Ast::Output,
            Ast::Input => Ast::Input,
            Ast::Loop(body) => {
                let ghost s0 = *self;
                let mut v: Vec<Ast> = Vec::new();
                let mut k: usize = 0;
                proof {
                    assert(body@.take(0) =~= Seq::<Ast>::empty());
                    assert(v@ =~= Seq::<Ast>::empty());
                }
                while k < body.len()
                    invariant
                        s0 == *self,
                        s0 == Ast::Loop(*body),
                        k <= body@.len(),
                        v@.len() == k,
                        same_tree(body@.take(k as int), v@),
                    decreases body@.len() - k,
                {
                    proof {
                        assert(decreases_to!(s0 => s0->Loop_0));
                        assert(s0->Loop_0 == *body);
                        assert(decreases_to!(*body => body@));
                        assert(decreases_to!(body@ => body@[k as int]));
                    }
                    let a = body[k].clone();
                    let ghost v0 = v@;
                    v.push(a);
                    proof {
                        assert(body@.take(k + 1) =~= body@.take(k as int).push(body@[k as int]));
                        lemma_same_tree_push(body@.take(k as int), v0, body@[k as int], a);
                    }
                    k = k + 1;
                }
                proof {
                    assert(body@.take(body@.len() as int) =~= body@);
                }
                Ast::Loop(v)
            },
        };
        proof {
            lemma_same_tree_one(*self, r);
        }
        r
    }
}

/// The depth over a prefix depends on the prefix alone.
proof fn lemma_depth_prefix_only(a: Seq<u8>, b: Seq<u8>, p: int)
    requires
        0 <= p <= a.len(),
        p <= b.len(),
        a.take(p) == b.take(p),
    ensures
        depth(a, 0, p) == depth(b, 0, p),
    decreases p,
{
    if p > 0 {
        assert(a.take(p - 1) =~= a.take(p).take(p - 1));
        assert(b.take(p - 1) =~= b.take(p).take(p - 1));
        assert(a[p - 1] == a.take(p)[p - 1]);
        assert(b[p - 1] == b.take(p)[p - 1]);
        lemma_depth_prefix_only(a, b, p - 1);
    }
}

/// The commands of a source are all commands.
proof fn lemma_commands_are_commands(s: Seq<u8>, j: int)
    requires
        0 <= j <= s.len(),
    ensures
        forall|k: int| 0 <= k < commands(s, 0, j).len() ==> is_command(#[trigger] commands(s, 0, j)[k]),
    decreases j,
{
    if j > 0 {
        lemma_commands_are_commands(s, j - 1);
        let c1 = commands(s, 0, j - 1);
        assert forall|k: int| 0 <= k < commands(s, 0, j).len() implies is_command(#[trigger] commands(s, 0, j)[k]) by {
            if k < c1.len() {
                assert(commands(s, 0, j)[k] == c1[k]);
            }
        }
    }
}

/// The commands of a shorter prefix begin the commands of a longer one, and
/// the depth over a prefix of the source is that over its commands.
proof fn lemma_commands_prefix(s: Seq<u8>, q: int, j: int)
    requires
        0 <= q <= j <= s.len(),
    ensures
        commands(s, 0, q).len() <= commands(s, 0, j).len(),
        commands(s, 0, j).take(commands(s, 0, q).len() as int) == commands(s, 0, q),
        depth(s, 0, j) == depth(commands(s, 0, j), 0, commands(s, 0, j).len() as int),
    decreases j,
{
    let c = commands(s, 0, j);
    if j == 0 {
        assert(c.take(0) =~= c);
    } else {
        lemma_commands_prefix(s, if q == j { j - 1 } else { q }, j - 1);
        let c1 = commands(s, 0, j - 1);
        if is_command(s[j - 1]) {
            assert(c == c1.push(s[j - 1]));
            assert(c.take(c1.len() as int) =~= c1);
            assert(c1.take(c1.len() as int) =~= c1);
            lemma_depth_prefix_only(c, c1, c1.len() as int);
            if q < j {
                assert(c.take(commands(s, 0, q).len() as int) =~= c1.take(commands(s, 0, q).len() as int));
            } else {
                assert(c.take(c.len() as int) =~= c);
            }
        } else {
            assert(depth_step(s[j - 1]) == 0);
            if q == j {
                assert(c.take(c.len() as int) =~= c);
            }
        }
    }
}

/// Every length of a prefix of the commands is the length of the commands
/// of some prefix of the source.
proof fn lemma_commands_reach(s: Seq<u8>, j: int, p: int)
    requires
        0 <= j <= s.len(),
        0 <= p <= commands(s, 0, j).len(),
    ensures
        exists|q: int| 0 <= q <= j && #[trigger] commands(s, 0, q).len() == p,
    decreases j,
{
    if p == commands(s, 0, j).len() {
        assert(commands(s, 0, j).len() == p);
    } else {
        lemma_commands_reach(s, j - 1, p);
        let q = choose|q: int| 0 <= q <= j - 1 && #[trigger] commands(s, 0, q).len() == p;
        assert(commands(s, 0, q).len() == p);
    }
}

/// Every byte that is not a command is a comment: a source is balanced
/// exactly when its commands alone are, its commands alone have the same
/// commands, and so the trees that both render are the same.
pub proof fn lemma_comments_ignored(s: Seq<u8>)
    ensures
        balanced(s) == balanced(commands(s, 0, s.len() as int)),
        commands(commands(s, 0, s.len() as int), 0, commands(s, 0, s.len() as int).len() as int)
            == commands(s, 0, s.len() as int),
        forall|v: Seq<Ast>, w: Seq<Ast>|
            render(v) == commands(s, 0, s.len() as int) && render(w) == commands(
                commands(s, 0, s.len() as int),
                0,
                commands(s, 0, s.len() as int).len() as int,
            ) ==> same_tree(v, w),
{
    let n = s.len() as int;
    let c = commands(s, 0, n);
    lemma_commands_are_commands(s, n);
    lemma_commands_all(c, c.len() as int);
    assert(c.take(c.len() as int) =~= c);
    lemma_commands_prefix(s, n, n);
    assert forall|q: int| 0 <= q <= n implies #[trigger] depth(s, 0, q) == depth(c, 0, commands(s, 0, q).len() as int) by {
        lemma_commands_prefix(s, q, n);
        lemma_commands_prefix(s, q, q);
        let cq = commands(s, 0, q);
        lemma_depth_prefix_only(c, cq, cq.len() as int);
        assert(cq.take(cq.len() as int) =~= cq);
    }
    if never_below(s, 0) {
        assert forall|p: int| 0 <= p <= c.len() implies #[trigger] depth(c, 0, p) >= 0 by {
            lemma_commands_reach(s, n, p);
            let q = choose|q: int| 0 <= q <= n && #[trigger] commands(s, 0, q).len() == p;
            assert(depth(s, 0, q) >= 0);
        }
    }
    if never_below(c, 0) {
        assert forall|q: int| 0 <= q <= n implies #[trigger] depth(s, 0, q) >= 0 by {
            lemma_commands_prefix(s, q, n);
            assert(depth(c, 0, commands(s, 0, q).len() as int) >= 0);
        }
    }
    assert forall|v: Seq<Ast>, w: Seq<Ast>|
        render(v) == c && render(w) == commands(c, 0, c.len() as int) implies same_tree(v, w) by {
        lemma_render_injective(v, w);
    }
}

} // verus!
