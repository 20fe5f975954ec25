//! Pretty-printing a control-flow graph as pseudocode.

use vstd::prelude::*;

use vstd::std_specs::iter::IteratorSpec;

use crate::block::{Block, Effect};
use crate::cfg::{cfg_below, Cfg};
use crate::egraph::{Graph, NodeId};
use crate::node::{BlockId, Node};

verus! {

/// The decimal digit `d` as a character.
pub open spec fn digit(d: int) -> char {
    ((48 + d) as u8) as char
}

/// The decimal digits of `n`.
pub open spec fn digits(n: nat) -> Seq<char>
    decreases n,
{
    if n < 10 {
        seq![digit(n as int)]
    } else {
        digits(n / 10).push(digit((n % 10) as int))
    }
}

/// The decimal text of `n`, with a `-` before a negative number.
pub open spec fn decimal(n: int) -> Seq<char> {
    if n < 0 {
        seq!['-'] + digits((-n) as nat)
    } else {
        digits(n as nat)
    }
}

/// A byte read as a signed byte.
pub open spec fn signed(c: u8) -> int {
    if c < 128 {
        c as int
    } else {
        c - 256
    }
}

/// The lowercase hexadecimal digit `d`.
pub open spec fn hex_digit(d: int) -> char {
    if d < 10 {
        ((48 + d) as u8) as char
    } else {
        ((87 + d) as u8) as char
    }
}

/// The indentation one level deeper than `ind`: four more spaces.
pub open spec fn deeper(ind: Seq<char>) -> Seq<char> {
    ind + seq![' ', ' ', ' ', ' ']
}

/// The name of the variable that holds the copy of the cell at `offset`.
pub open spec fn copy_name(offset: int) -> Seq<char> {
    if offset < 0 {
        seq!['c', 'n'] + digits((-offset) as nat)
    } else {
        seq!['c'] + digits(offset as nat)
    }
}

/// `text` in parentheses, when `grouped`.
pub open spec fn group(text: Seq<char>, grouped: bool) -> Seq<char> {
    if grouped {
        seq!['('] + text + seq![')']
    } else {
        text
    }
}

/// The text of the value of node `id`: copies by their variable when
/// `use_copies`, else as the cell they read.
pub open spec fn node_text(nodes: Seq<Node>, id: NodeId, use_copies: bool) -> Seq<char>
    decreases id.0,
{
    if id.0 < nodes.len() {
        match nodes[id.0 as int] {
            Node::Copy(offset, _) => if use_copies {
                copy_name(offset.0 as int)
            } else {
                seq!['p', '['] + decimal(offset.0 as int) + seq![']']
            },
            Node::Const(c) => decimal(signed(c)),
            Node::Input(i) => seq!['i', 'n'] + decimal(i.0 as int),
            Node::Add(l, r) => if l.0 < id.0 && r.0 < id.0 {
                node_text(nodes, l, use_copies) + if nodes[r.0 as int] is Const && signed(
                    nodes[r.0 as int]->Const_0,
                ) < 0 {
                    seq![' ', '-', ' '] + decimal(-signed(nodes[r.0 as int]->Const_0))
                } else {
                    seq![' ', '+', ' '] + group(node_text(nodes, r, use_copies), nodes[r.0 as int] is Add)
                }
            } else {
                Seq::empty()
            },
            Node::Mul(l, r) => if l.0 < id.0 && r.0 < id.0 {
                group(node_text(nodes, l, use_copies), nodes[l.0 as int] is Add) + seq![' ', '*', ' ']
                    + group(node_text(nodes, r, use_copies), nodes[r.0 as int] is Add || nodes[r.0 as int] is Mul)
            } else {
                Seq::empty()
            },
        }
    } else {
        Seq::empty()
    }
}

/// The text of a byte in a string or character literal, escaped when it is
/// not printable.
pub open spec fn escape(b: u8) -> Seq<char> {
    if b == 0 {
        seq!['\\', '0']
    } else if b == 9 {
        seq!['\\', 't']
    } else if b == 10 {
        seq!['\\', 'n']
    } else if b == 13 {
        seq!['\\', 'r']
    } else if b == 92 {
        seq!['\\', '\\']
    } else if 32 <= b < 127 {
        seq![b as char]
    } else {
        seq!['\\', 'x', hex_digit((b / 16) as int), hex_digit((b % 16) as int)]
    }
}

/// The value of a lowercase hexadecimal digit, or -1 for another character.
pub open spec fn hex_value(c: char) -> int {
    if 48 <= c as int <= 57 {
        c as int - 48
    } else if 97 <= c as int <= 102 {
        c as int - 87
    } else {
        -1
    }
}

/// The byte that the text of one character of a literal denotes, reading
/// its escapes as Rust does: `\0`, `\t`, `\n`, `\r`, `\\` and `\xHH`, or
/// the character itself; -1 for text that denotes no byte.
pub open spec fn unescape(s: Seq<char>) -> int {
    if s.len() == 1 && s[0] != '\\' && (s[0] as int) < 256 {
        s[0] as int
    } else if s.len() == 2 && s[0] == '\\' {
        if s[1] == '0' {
            0
        } else if s[1] == 't' {
            9
        } else if s[1] == 'n' {
            10
        } else if s[1] == 'r' {
            13
        } else if s[1] == '\\' {
            92
        } else {
            -1
        }
    } else if s.len() == 4 && s[0] == '\\' && s[1] == 'x' && hex_value(s[2]) >= 0 && hex_value(s[3]) >= 0 {
        16 * hex_value(s[2]) + hex_value(s[3])
    } else {
        -1
    }
}

/// Reading the escaped text of a byte back gives the byte.
pub proof fn lemma_unescape_escape(b: u8)
    ensures
        unescape(escape(b)) == b as int,
{
    let e = escape(b);
    if b == 0 || b == 9 || b == 10 || b == 13 || b == 92 {
    } else if 32 <= b < 127 {
        assert(e[0] as int == b as int);
    } else {
        let hi = (b / 16) as int;
        let lo = (b % 16) as int;
        assert(e[2] == hex_digit(hi));
        assert(e[3] == hex_digit(lo));
        assert(hex_value(hex_digit(hi)) == hi);
        assert(hex_value(hex_digit(lo)) == lo);
    }
}

/// Different bytes have different escaped texts.
pub proof fn lemma_escape_injective(a: u8, b: u8)
    requires
        escape(a) == escape(b),
    ensures
        a == b,
{
    lemma_unescape_escape(a);
    lemma_unescape_escape(b);
}

/// The escaped text of the constants `values`.
pub open spec fn escapes(nodes: Seq<Node>, values: Seq<NodeId>) -> Seq<char>
    decreases values.len(),
{
    if values.len() == 0 {
        Seq::empty()
    } else {
        escapes(nodes, values.drop_last()) + escape(nodes[values.last().0 as int]->Const_0)
    }
}

/// The text of one element of an output array: a character literal for a
/// constant, else the value.
pub open spec fn element_text(nodes: Seq<Node>, v: NodeId) -> Seq<char> {
    if nodes[v.0 as int] is Const {
        seq!['\''] + escape(nodes[v.0 as int]->Const_0) + seq!['\'']
    } else {
        node_text(nodes, v, false)
    }
}

/// The elements of an output array, separated by commas.
pub open spec fn elements_text(nodes: Seq<Node>, values: Seq<NodeId>) -> Seq<char>
    decreases values.len(),
{
    if values.len() == 0 {
        Seq::empty()
    } else {
        elements_text(nodes, values.drop_last()) + (if values.len() > 1 {
            seq![',', ' ']
        } else {
            Seq::empty()
        }) + element_text(nodes, values.last())
    }
}

/// Whether every value of `values` is a constant.
pub open spec fn all_const(nodes: Seq<Node>, values: Seq<NodeId>) -> bool {
    forall|k: int| 0 <= k < values.len() ==> nodes[(#[trigger] values[k]).0 as int] is Const
}

/// The text of the values of an output: a string literal when they are all
/// constants, else an array.
pub open spec fn array_text(nodes: Seq<Node>, values: Seq<NodeId>) -> Seq<char> {
    if all_const(nodes, values) {
        seq!['"'] + escapes(nodes, values) + seq!['"']
    } else {
        seq!['['] + elements_text(nodes, values) + seq![']']
    }
}

/// The text of an effect.
pub open spec fn effect_text(nodes: Seq<Node>, e: Effect) -> Seq<char> {
    match e {
        Effect::Output(values) => seq!['o', 'u', 't', 'p', 'u', 't', '('] + array_text(nodes, values@) + seq![')'],
        Effect::Input(id) => seq!['l', 'e', 't', ' '] + node_text(nodes, id, false) + seq![
            ' ',
            '=',
            ' ',
            'i',
            'n',
            'p',
            'u',
            't',
            '(',
            ')',
        ],
        Effect::GuardShift(offset) => seq!['g', 'u', 'a', 'r', 'd', '_', 's', 'h', 'i', 'f', 't', '(']
            + decimal(offset.0 as int) + seq![')'],
    }
}

/// The lines of the effects, in order.
pub open spec fn effects_text(nodes: Seq<Node>, effects: Seq<Effect>, ind: Seq<char>) -> Seq<char>
    decreases effects.len(),
{
    if effects.len() == 0 {
        Seq::empty()
    } else {
        effects_text(nodes, effects.drop_last(), ind) + ind + effect_text(
            nodes,
            effects.last(),
        ) + seq!['\n']
    }
}

/// The offsets of `q` below `x`, in order.
pub open spec fn below(q: Seq<i64>, x: i64) -> Seq<i64>
    decreases q.len(),
{
    if q.len() == 0 {
        Seq::empty()
    } else if q.last() < x {
        below(q.drop_last(), x).push(q.last())
    } else {
        below(q.drop_last(), x)
    }
}

/// The offsets of `q` above `x`, in order.
pub open spec fn above(q: Seq<i64>, x: i64) -> Seq<i64>
    decreases q.len(),
{
    if q.len() == 0 {
        Seq::empty()
    } else if q.last() > x {
        above(q.drop_last(), x).push(q.last())
    } else {
        above(q.drop_last(), x)
    }
}

/// `q` with `x` added in order, unless it holds `x` already.
pub open spec fn insert_sorted(q: Seq<i64>, x: i64) -> Seq<i64> {
    if q.contains(x) {
        q
    } else {
        below(q, x).push(x) + above(q, x)
    }
}

/// The offsets of the copies that the value of node `id` reads, added to
/// `q`, left operands first.
pub open spec fn visit_copies(nodes: Seq<Node>, id: NodeId, q: Seq<i64>) -> Seq<i64>
    decreases id.0,
{
    if id.0 < nodes.len() {
        match nodes[id.0 as int] {
            Node::Copy(offset, _) => insert_sorted(q, offset.0),
            Node::Add(l, r) | Node::Mul(l, r) => if l.0 < id.0 && r.0 < id.0 {
                visit_copies(nodes, r, visit_copies(nodes, l, q))
            } else {
                q
            },
            _ => q,
        }
    } else {
        q
    }
}

/// The offsets of the copies that the values of `memory` read, in order.
pub open spec fn memory_copies(nodes: Seq<Node>, memory: Seq<Option<NodeId>>) -> Seq<i64>
    decreases memory.len(),
{
    if memory.len() == 0 {
        Seq::empty()
    } else {
        match memory.last() {
            Some(id) => visit_copies(nodes, id, memory_copies(nodes, memory.drop_last())),
            None => memory_copies(nodes, memory.drop_last()),
        }
    }
}

/// Whether the offsets `q` increase strictly.
pub open spec fn increasing(q: Seq<i64>) -> bool {
    forall|i: int, j: int| 0 <= i < j < q.len() ==> q[i] < q[j]
}

/// What a sequence with one more offset holds.
proof fn lemma_push_contains(q: Seq<i64>, a: i64)
    ensures
        forall|y: i64| q.push(a).contains(y) <==> q.contains(y) || y == a,
{
    assert forall|y: i64| q.push(a).contains(y) <==> q.contains(y) || y == a by {
        if q.push(a).contains(y) {
            let k = choose|k: int| 0 <= k < q.push(a).len() && q.push(a)[k] == y;
            if k < q.len() {
                assert(q[k] == y);
            }
        }
        if q.contains(y) {
            let k = choose|k: int| 0 <= k < q.len() && q[k] == y;
            assert(q.push(a)[k] == y);
        }
        if y == a {
            assert(q.push(a)[q.len() as int] == y);
        }
    }
}

/// An increasing sequence with one more offset above all it holds is
/// increasing.
proof fn lemma_push_increasing(q: Seq<i64>, a: i64)
    requires
        increasing(q),
        forall|y: i64| q.contains(y) ==> y < a,
    ensures
        increasing(q.push(a)),
{
    assert forall|i: int, j: int| 0 <= i < j < q.push(a).len() implies q.push(a)[i] < q.push(a)[j] by {
        if j == q.len() {
            assert(q.contains(q[i]));
        } else {
            assert(q.push(a)[i] == q[i] && q.push(a)[j] == q[j]);
        }
    }
}

/// The offsets below `x` are those of `q` below `x`, and increase when `q`
/// does.
proof fn lemma_below(q: Seq<i64>, x: i64)
    ensures
        forall|y: i64| below(q, x).contains(y) <==> q.contains(y) && y < x,
        forall|k: int| 0 <= k < below(q, x).len() ==> #[trigger] below(q, x)[k] < x,
        increasing(q) ==> increasing(below(q, x)),
    decreases q.len(),
{
    if q.len() == 0 {
        assert(below(q, x) =~= Seq::<i64>::empty());
    } else {
        let p = q.drop_last();
        let a = q.last();
        lemma_below(p, x);
        assert(q =~= p.push(a));
        lemma_push_contains(p, a);
        lemma_push_contains(below(p, x), a);
        assert forall|y: i64| below(q, x).contains(y) <==> q.contains(y) && y < x by {
            assert(q.contains(y) <==> p.push(a).contains(y));
            assert(below(p, x).contains(y) <==> p.contains(y) && y < x);
            assert(below(p, x).push(a).contains(y) <==> below(p, x).contains(y) || y == a);
            assert(p.push(a).contains(y) <==> p.contains(y) || y == a);
        }
        if increasing(q) {
            assert(increasing(p));
            if a < x {
                assert forall|y: i64| below(p, x).contains(y) implies y < a by {
                    assert(p.contains(y));
                    let k = choose|k: int| 0 <= k < p.len() && p[k] == y;
                    assert(p[k] == q[k]);
                    assert(q[k] < q[q.len() - 1]);
                }
                lemma_push_increasing(below(p, x), a);
            }
        }
    }
}

/// The offsets above `x` are those of `q` above `x`, and increase when `q`
/// does.
proof fn lemma_above(q: Seq<i64>, x: i64)
    ensures
        forall|y: i64| above(q, x).contains(y) <==> q.contains(y) && y > x,
        forall|k: int| 0 <= k < above(q, x).len() ==> #[trigger] above(q, x)[k] > x,
        increasing(q) ==> increasing(above(q, x)),
    decreases q.len(),
{
    if q.len() == 0 {
        assert(above(q, x) =~= Seq::<i64>::empty());
    } else {
        let p = q.drop_last();
        let a = q.last();
        lemma_above(p, x);
        assert(q =~= p.push(a));
        lemma_push_contains(p, a);
        lemma_push_contains(above(p, x), a);
        assert forall|y: i64| above(q, x).contains(y) <==> q.contains(y) && y > x by {
            assert(q.contains(y) <==> p.push(a).contains(y));
            assert(above(p, x).contains(y) <==> p.contains(y) && y > x);
            assert(above(p, x).push(a).contains(y) <==> above(p, x).contains(y) || y == a);
            assert(p.push(a).contains(y) <==> p.contains(y) || y == a);
        }
        if increasing(q) {
            assert(increasing(p));
            if a > x {
                assert forall|y: i64| above(p, x).contains(y) implies y < a by {
                    assert(p.contains(y));
                    let k = choose|k: int| 0 <= k < p.len() && p[k] == y;
                    assert(p[k] == q[k]);
                    assert(q[k] < q[q.len() - 1]);
                }
                lemma_push_increasing(above(p, x), a);
            }
        }
    }
}

/// Adding an offset in order keeps the offsets increasing, and adds just
/// that offset.
#[verifier::rlimit(30)]
proof fn lemma_insert_sorted(q: Seq<i64>, x: i64)
    requires
        increasing(q),
    ensures
        increasing(insert_sorted(q, x)),
        forall|y: i64| insert_sorted(q, x).contains(y) <==> q.contains(y) || y == x,
{
    if !q.contains(x) {
        lemma_below(q, x);
        lemma_above(q, x);
        let b = below(q, x);
        let hi = above(q, x);
        lemma_push_contains(b, x);
        assert forall|y: i64| b.contains(y) implies y < x by {
            let k = choose|k: int| 0 <= k < b.len() && b[k] == y;
            assert(b[k] < x);
        }
        lemma_push_increasing(b, x);
        let lo = b.push(x);
        let r = lo + hi;
        assert forall|i: int| 0 <= i < lo.len() implies lo[i] <= x by {
            if i < b.len() {
                assert(lo[i] == b[i]);
            }
        }
        assert forall|j: int| 0 <= j < hi.len() implies hi[j] > x by {}
        assert forall|i: int, j: int| 0 <= i < j < r.len() implies r[i] < r[j] by {
            if j < lo.len() {
                assert(r[i] == lo[i] && r[j] == lo[j]);
            } else if i >= lo.len() {
                assert(r[i] == hi[i - lo.len()] && r[j] == hi[j - lo.len()]);
            } else {
                assert(r[i] == lo[i] && r[j] == hi[j - lo.len()]);
            }
        }
        assert forall|y: i64| r.contains(y) <==> q.contains(y) || y == x by {
            if r.contains(y) {
                let k = choose|k: int| 0 <= k < r.len() && r[k] == y;
                if k < lo.len() {
                    assert(lo[k] == y);
                    assert(lo.contains(y));
                } else {
                    assert(hi[k - lo.len()] == y);
                    assert(hi.contains(y));
                }
            }
            if q.contains(y) && y < x {
                assert(lo.contains(y));
                let k = choose|k: int| 0 <= k < lo.len() && lo[k] == y;
                assert(r[k] == y);
            }
            if q.contains(y) && y > x {
                let k = choose|k: int| 0 <= k < hi.len() && hi[k] == y;
                assert(r[lo.len() + k] == y);
            }
            if y == x {
                assert(r[lo.len() - 1] == x);
            }
        }
    }
}

/// Visiting a value keeps the offsets of the copies increasing.
proof fn lemma_visit_increasing(nodes: Seq<Node>, id: NodeId, q: Seq<i64>)
    requires
        increasing(q),
    ensures
        increasing(visit_copies(nodes, id, q)),
    decreases id.0,
{
    if id.0 < nodes.len() {
        match nodes[id.0 as int] {
            Node::Copy(offset, _) => {
                lemma_insert_sorted(q, offset.0);
            },
            Node::Add(l, r) | Node::Mul(l, r) => {
                if l.0 < id.0 && r.0 < id.0 {
                    lemma_visit_increasing(nodes, l, q);
                    lemma_visit_increasing(nodes, r, visit_copies(nodes, l, q));
                }
            },
            _ => {},
        }
    }
}

/// The copies that a block binds are each bound once, in increasing order
/// of offset.
pub proof fn lemma_memory_copies_increasing(nodes: Seq<Node>, memory: Seq<Option<NodeId>>)
    ensures
        increasing(memory_copies(nodes, memory)),
    decreases memory.len(),
{
    if memory.len() > 0 {
        lemma_memory_copies_increasing(nodes, memory.drop_last());
        if let Some(id) = memory.last() {
            lemma_visit_increasing(nodes, id, memory_copies(nodes, memory.drop_last()));
        }
    }
}

/// The lines that bind each copy to the cell it reads.
pub open spec fn copies_text(copies: Seq<i64>, ind: Seq<char>) -> Seq<char>
    decreases copies.len(),
{
    if copies.len() == 0 {
        Seq::empty()
    } else {
        copies_text(copies.drop_last(), ind) + ind + seq!['l', 'e', 't', ' '] + copy_name(
            copies.last() as int,
        ) + seq![' ', '=', ' ', 'p', '['] + decimal(copies.last() as int) + seq![']', '\n']
    }
}

/// The lines that assign the cells of `memory[..k]`, which start at
/// `min_offset`, other than those that keep their value.
pub open spec fn assigns_text(nodes: Seq<Node>, b: &Block, k: int, ind: Seq<char>) -> Seq<char>
    decreases k,
{
    if k <= 0 {
        Seq::empty()
    } else {
        assigns_text(nodes, b, k - 1, ind) + match b.memory@[k - 1] {
            Some(id) => if nodes[id.0 as int] == Node::Copy(crate::node::Offset((b.min_offset.0 + k - 1) as i64), b.id) {
                Seq::empty()
            } else {
                ind + seq!['p', '['] + decimal(b.min_offset.0 + k - 1) + seq![']', ' ', '=', ' ']
                    + node_text(nodes, id, true) + seq!['\n']
            },
            None => Seq::empty(),
        }
    }
}

/// The text of a block: its effects, the copies that its values read, the
/// cells it assigns and the shift it makes.
pub open spec fn block_text(nodes: Seq<Node>, b: &Block, ind: Seq<char>) -> Seq<char> {
    effects_text(nodes, b.effects@, ind) + copies_text(memory_copies(nodes, b.memory@), ind)
        + assigns_text(nodes, b, b.memory@.len() as int, ind) + if b.offset.0 != 0 {
        ind + seq!['s', 'h', 'i', 'f', 't', '('] + decimal(b.offset.0 as int) + seq![')', '\n']
    } else {
        Seq::empty()
    }
}

/// The text of a control-flow graph: a block as its lines, a sequence as
/// its items with each block in braces, and a loop or `If` with its body
/// indented in braces.
pub open spec fn cfg_text(nodes: Seq<Node>, cfg: Cfg, ind: Seq<char>) -> Seq<char>
    decreases cfg, 1nat,
{
    match cfg {
        Cfg::Block(b) => block_text(nodes, &b, ind),
        Cfg::Sequence(s) => {
            proof {
                assert(decreases_to!(cfg => s));
                assert(decreases_to!(s => s.cfgs));
                assert(decreases_to!(s.cfgs => s.cfgs@));
            }
            items_text(nodes, s.cfgs@, ind)
        },
        Cfg::Loop(body) => ind + seq!['w', 'h', 'i', 'l', 'e', ' ', 'p', '[', '0', ']', ' ', '!', '=', ' ', '0', ' ', '{', '\n']
            + cfg_text(nodes, *body, deeper(ind)) + ind + seq!['}', '\n'],
        Cfg::If(body) => ind + seq!['i', 'f', ' ', 'p', '[', '0', ']', ' ', '!', '=', ' ', '0', ' ', '{', '\n']
            + cfg_text(nodes, *body, deeper(ind)) + ind + seq!['}', '\n'],
    }
}

/// The text of the items of a sequence, each block in braces.
pub open spec fn items_text(nodes: Seq<Node>, items: Seq<Cfg>, ind: Seq<char>) -> Seq<char>
    decreases items, 0nat,
{
    if items.len() == 0 {
        Seq::empty()
    } else {
        proof {
            assert(decreases_to!(items => items[items.len() - 1]));
        }
        items_text(nodes, items.drop_last(), ind) + match items[items.len() - 1] {
            Cfg::Block(b) => ind + seq!['{', '\n'] + block_text(nodes, &b, deeper(ind))
                + ind + seq!['}', '\n'],
            other => cfg_text(nodes, other, ind),
        }
    }
}

/// Writes the characters of `s` after `out`.
fn write_str(out: &mut Vec<char>, s: &str)
    ensures
        final(out)@ == old(out)@ + s@,
{
    broadcast use vstd::string::axiom_spec_iter, vstd::string::next_postcondition;
    let ghost o0 = out@;
    let mut chars = s.chars();
    let ghost n = s@.len() as int;
    let ghost mut i: int = 0;
    loop
        invariant
            chars.obeys_prophetic_iter_laws(),
            0 <= i <= n,
            chars.remaining().len() == n - i,
            s@.skip(i) == chars.remaining(),
            out@ == o0 + s@.take(i),
            n == s@.len(),
        ensures
            out@ == o0 + s@,
        decreases n - i,
    {
        let ghost r0 = chars.remaining();
        match chars.next() {
            Some(c) => {
                proof {
                    assert(r0[0] == s@[i]);
                    assert(s@.skip(i + 1) =~= r0.drop_first());
                    assert(s@.take(i + 1) =~= s@.take(i).push(c));
                    i = i + 1;
                }
                out.push(c);
            },
            None => {
                proof {
                    assert(s@.take(n) =~= s@);
                }
                break;
            },
        }
    }
}

/// Whether every copy that the value of node `id` reads is from block
/// `bid`.
pub open spec fn copies_local(nodes: Seq<Node>, id: NodeId, bid: BlockId) -> bool
    decreases id.0,
{
    if id.0 < nodes.len() {
        match nodes[id.0 as int] {
            Node::Copy(_, b) => b == bid,
            Node::Add(l, r) | Node::Mul(l, r) => l.0 < id.0 && r.0 < id.0 ==> copies_local(nodes, l, bid)
                && copies_local(nodes, r, bid),
            _ => true,
        }
    } else {
        true
    }
}

/// Whether the values that block `b` assigns copy only from `b`.
pub open spec fn block_local(nodes: Seq<Node>, b: &Block) -> bool {
    forall|k: int|
        0 <= k < b.memory@.len() && (#[trigger] b.memory@[k]) is Some ==> copies_local(nodes, b.memory@[k]->0, b.id)
}

/// Whether the values that each block of `cfg` assigns copy only from that
/// block.
pub open spec fn cfg_local(nodes: Seq<Node>, cfg: Cfg) -> bool
    decreases cfg,
{
    match cfg {
        Cfg::Block(b) => block_local(nodes, &b),
        Cfg::Sequence(s) => forall|k: int| 0 <= k < s.cfgs@.len() ==> cfg_local(nodes, #[trigger] s.cfgs@[k]),
        Cfg::Loop(body) => cfg_local(nodes, *body),
        Cfg::If(body) => cfg_local(nodes, *body),
    }
}

/// Writes the decimal digits of `n`.
fn write_digits(out: &mut Vec<char>, n: u64)
    ensures
        final(out)@ == old(out)@ + digits(n as nat),
    decreases n,
{
    let ghost o0 = out@;
    if n >= 10 {
        write_digits(out, n / 10);
    }
    let d = (n % 10) as u8;
    out.push((48u8 + d) as char);
    proof {
        if n >= 10 {
            assert(digits(n as nat) == digits((n / 10) as nat).push(digit((n % 10) as int)));
            assert(out@ =~= o0 + digits(n as nat));
        } else {
            assert(out@ =~= o0 + digits(n as nat));
        }
    }
}

/// Writes `n` in decimal.
fn write_decimal(out: &mut Vec<char>, n: i64)
    ensures
        final(out)@ == old(out)@ + decimal(n as int),
{
    let ghost o0 = out@;
    if n < 0 {
        out.push('-');
        let m: u64 = (0i128 - n as i128) as u64;
        write_digits(out, m);
        proof {
            assert(out@ =~= o0 + decimal(n as int));
        }
    } else {
        write_digits(out, n as u64);
    }
}

/// Adds `x` to the sorted offsets `q` in order, unless it is there already.
fn insert_offset(q: &mut Vec<i64>, x: i64)
    ensures
        final(q)@ == insert_sorted(old(q)@, x),
{
    let ghost q0 = q@;
    let mut k: usize = 0;
    while k < q.len()
        invariant
            q@ == q0,
            k <= q@.len(),
            forall|j: int| 0 <= j < k ==> q@[j] != x,
        decreases q@.len() - k,
    {
        if q[k] == x {
            proof {
                assert(q0.contains(x));
            }
            return;
        }
        k = k + 1;
    }
    let mut lo: Vec<i64> = Vec::new();
    let mut hi: Vec<i64> = Vec::new();
    let mut k: usize = 0;
    while k < q.len()
        invariant
            q@ == q0,
            k <= q@.len(),
            lo@ == below(q0.take(k as int), x),
            hi@ == above(q0.take(k as int), x),
        decreases q@.len() - k,
    {
        proof {
            assert(q0.take(k + 1).drop_last() =~= q0.take(k as int));
        }
        if q[k] < x {
            lo.push(q[k]);
        } else if q[k] > x {
            hi.push(q[k]);
        }
        k = k + 1;
    }
    lo.push(x);
    lo.append(&mut hi);
    proof {
        assert(q0.take(q0.len() as int) =~= q0);
        assert(!q0.contains(x));
    }
    *q = lo;
}

/// Adds the offsets of the copies that the value of node `id` reads to
/// `copies`, left operands first.
fn visit_copies_into(g: &Graph, id: NodeId, copies: &mut Vec<i64>)
    requires
        g.wf(),
        id.0 < g@.len(),
    ensures
        final(copies)@ == visit_copies(g@, id, old(copies)@),
    decreases id.0,
{
    proof {
        g.lemma_wf_nodes();
        assert(crate::egraph::children_below(g@[id.0 as int], id.0 as int));
    }
    match *g.index(id) {
        Node::Copy(offset, _) => insert_offset(copies, offset.0),
        Node::Add(lhs, rhs) | Node::Mul(lhs, rhs) => {
            visit_copies_into(g, lhs, copies);
            visit_copies_into(g, rhs, copies);
        },
        _ => {},
    }
}

/// Returns whether every copy that the value of node `id` reads is from
/// block `bid`.
fn node_copies_local(g: &Graph, id: NodeId, bid: BlockId) -> (r: bool)
    requires
        g.wf(),
        id.0 < g@.len(),
    ensures
        r == copies_local(g@, id, bid),
    decreases id.0,
{
    proof {
        g.lemma_wf_nodes();
        assert(crate::egraph::children_below(g@[id.0 as int], id.0 as int));
    }
    match *g.index(id) {
        Node::Copy(_, b) => b == bid,
        Node::Add(lhs, rhs) | Node::Mul(lhs, rhs) => node_copies_local(g, lhs, bid) && node_copies_local(g, rhs, bid),
        _ => true,
    }
}

/// Returns the indentation one level deeper than `ind`.
fn deeper_indent(ind: &Vec<char>) -> (d: Vec<char>)
    ensures
        d@ == deeper(ind@),
{
    let mut d: Vec<char> = Vec::new();
    let mut k: usize = 0;
    while k < ind.len()
        invariant
            k <= ind@.len(),
            d@ == ind@.take(k as int),
        decreases ind@.len() - k,
    {
        d.push(ind[k]);
        proof {
            assert(ind@.take(k + 1) =~= ind@.take(k as int).push(ind@[k as int]));
        }
        k = k + 1;
    }
    d.push(' ');
    d.push(' ');
    d.push(' ');
    d.push(' ');
    proof {
        assert(ind@.take(ind@.len() as int) =~= ind@);
        assert(d@ =~= deeper(ind@));
    }
    d
}

/// The lowercase hexadecimal digit `d`.
fn hex_char(d: u8) -> (c: char)
    requires
        d < 16,
    ensures
        c == hex_digit(d as int),
{
    if d < 10 {
        (48 + d) as char
    } else {
        (87 + d) as char
    }
}

/// A printer of pseudocode for the values of an e-graph.
struct PrettyPrinter<'g> {
    out: Vec<char>,
    g: &'g Graph,
}

impl<'g> PrettyPrinter<'g> {
    /// Constructs a printer with no text yet.
    fn new(g: &'g Graph) -> (p: Self)
        ensures
            p.out@ == Seq::<char>::empty(),
            p.g == g,
    {
        PrettyPrinter { out: Vec::new(), g }
    }

    /// Writes the characters of `s`.
    fn write_str(&mut self, s: &str)
        ensures
            final(self).out@ == old(self).out@ + s@,
            final(self).g == old(self).g,
    {
        write_str(&mut self.out, s);
    }

    /// Writes `n` in decimal.
    fn write_decimal(&mut self, n: i64)
        ensures
            final(self).out@ == old(self).out@ + decimal(n as int),
            final(self).g == old(self).g,
    {
        write_decimal(&mut self.out, n);
    }

    /// Writes the indentation `ind`.
    fn indent(&mut self, ind: &Vec<char>)
        ensures
            final(self).out@ == old(self).out@ + ind@,
            final(self).g == old(self).g,
    {
        let ghost o0 = self.out@;
        let mut k: usize = 0;
        while k < ind.len()
            invariant
                k <= ind@.len(),
                self.out@ == o0 + ind@.take(k as int),
                self.g == old(self).g,
            decreases ind@.len() - k,
        {
            self.out.push(ind[k]);
            proof {
                assert(ind@.take(k + 1) =~= ind@.take(k as int).push(ind@[k as int]));
            }
            k = k + 1;
        }
        proof {
            assert(ind@.take(ind@.len() as int) =~= ind@);
        }
    }

    /// Writes the name of the variable that holds the copy of the cell at
    /// `copy`.
    fn pretty_copy(&mut self, copy: i64)
        ensures
            final(self).out@ == old(self).out@ + copy_name(copy as int),
            final(self).g == old(self).g,
    {
        let ghost o0 = self.out@;
        if copy < 0 {
            self.out.push('c');
            self.out.push('n');
            let m: u64 = (0i128 - copy as i128) as u64;
            write_digits(&mut self.out, m);
        } else {
            self.out.push('c');
            write_digits(&mut self.out, copy as u64);
        }
        proof {
            assert(self.out@ =~= o0 + copy_name(copy as int));
        }
    }

    /// Writes the value of a node.
    #[verifier::rlimit(40)]
    fn pretty_node(&mut self, node: NodeId, use_copies: bool)
        requires
            old(self).g.wf(),
            node.0 < old(self).g@.len(),
        ensures
            final(self).out@ == old(self).out@ + node_text(old(self).g@, node, use_copies),
            final(self).g == old(self).g,
        decreases node.0, 0nat,
    {
        let ghost o0 = self.out@;
        let ghost nodes = self.g@;
        proof {
            self.g.lemma_wf_nodes();
            assert(crate::egraph::children_below(nodes[node.0 as int], node.0 as int));
        }
        match *self.g.index(node) {
            Node::Copy(offset, _) => {
                if use_copies {
                    self.pretty_copy(offset.0);
                } else {
                    self.out.push('p');
                    self.out.push('[');
                    self.write_decimal(offset.0);
                    self.out.push(']');
                    proof {
                        assert(self.out@ =~= o0 + node_text(nodes, node, use_copies));
                    }
                }
            },
            Node::Const(c) => {
                let v: i64 = if c < 128 {
                    c as i64
                } else {
                    c as i64 - 256
                };
                self.write_decimal(v);
            },
            Node::Input(id) => {
                self.out.push('i');
                self.out.push('n');
                self.write_decimal(id.0 as i64);
                proof {
                    assert(self.out@ =~= o0 + node_text(nodes, node, use_copies));
                }
            },
            Node::Add(lhs, rhs) => {
                self.pretty_node(lhs, use_copies);
                let ghost o1 = self.out@;
                let rhs_node = *self.g.index(rhs);
                if let Node::Const(c) = rhs_node {
                    if c >= 128 {
                        self.out.push(' ');
                        self.out.push('-');
                        self.out.push(' ');
                        self.write_decimal(256 - c as i64);
                        proof {
                            assert(self.out@ =~= o0 + node_text(nodes, node, use_copies));
                        }
                        return;
                    }
                }
                self.out.push(' ');
                self.out.push('+');
                self.out.push(' ');
                let grouped = match rhs_node {
                    Node::Add(..) => true,
                    _ => false,
                };
                self.group_node(rhs, grouped, use_copies);
                proof {
                    assert(self.out@ =~= o0 + node_text(nodes, node, use_copies));
                }
            },
            Node::Mul(lhs, rhs) => {
                let lhs_grouped = match *self.g.index(lhs) {
                    Node::Add(..) => true,
                    _ => false,
                };
                self.group_node(lhs, lhs_grouped, use_copies);
                self.out.push(' ');
                self.out.push('*');
                self.out.push(' ');
                let rhs_grouped = match *self.g.index(rhs) {
                    Node::Add(..) | Node::Mul(..) => true,
                    _ => false,
                };
                self.group_node(rhs, rhs_grouped, use_copies);
                proof {
                    assert(self.out@ =~= o0 + node_text(nodes, node, use_copies));
                }
            },
        }
    }

    /// Writes a byte of a string or character literal, escaped when it is not
    /// printable.
    fn escape_char(&mut self, b: u8)
        ensures
            final(self).out@ == old(self).out@ + escape(b),
            final(self).g == old(self).g,
    {
        let ghost o0 = self.out@;
        if b == 0 {
            self.out.push('\\');
            self.out.push('0');
        } else if b == 9 {
            self.out.push('\\');
            self.out.push('t');
        } else if b == 10 {
            self.out.push('\\');
            self.out.push('n');
        } else if b == 13 {
            self.out.push('\\');
            self.out.push('r');
        } else if b == 92 {
            self.out.push('\\');
            self.out.push('\\');
        } else if 32 <= b && b < 127 {
            self.out.push(b as char);
        } else {
            self.out.push('\\');
            self.out.push('x');
            self.out.push(hex_char(b / 16));
            self.out.push(hex_char(b % 16));
        }
        proof {
            assert(self.out@ =~= o0 + escape(b));
        }
    }

    /// Writes the values of an output: a string literal when they are all
    /// constants, else an array.
    fn pretty_array(&mut self, values: &Vec<NodeId>)
        requires
            old(self).g.wf(),
            forall|k: int| 0 <= k < values@.len() ==> (#[trigger] values@[k]).0 < old(self).g@.len(),
        ensures
            final(self).out@ == old(self).out@ + array_text(old(self).g@, values@),
            final(self).g == old(self).g,
    {
        let ghost o0 = self.out@;
        let ghost nodes = self.g@;
        let mut all = true;
        let mut k: usize = 0;
        while k < values.len()
            invariant
                k <= values@.len(),
                self.g@ == nodes,
                forall|j: int| 0 <= j < values@.len() ==> (#[trigger] values@[j]).0 < nodes.len(),
                all == forall|j: int| 0 <= j < k ==> nodes[(#[trigger] values@[j]).0 as int] is Const,
            decreases values@.len() - k,
        {
            let is_const = match *self.g.index(values[k]) {
                Node::Const(_) => true,
                _ => false,
            };
            if !is_const {
                all = false;
            }
            k = k + 1;
        }
        if all {
            self.out.push('"');
            let ghost o1 = self.out@;
            let mut k: usize = 0;
            while k < values.len()
                invariant
                    k <= values@.len(),
                    self.g@ == nodes,
                    self.g == old(self).g,
                    all_const(nodes, values@),
                    forall|j: int| 0 <= j < values@.len() ==> (#[trigger] values@[j]).0 < nodes.len(),
                    self.out@ == o1 + escapes(nodes, values@.take(k as int)),
                decreases values@.len() - k,
            {
                proof {
                    assert(values@.take(k + 1).drop_last() =~= values@.take(k as int));
                    assert(nodes[values@[k as int].0 as int] is Const);
                }
                if let Node::Const(c) = *self.g.index(values[k]) {
                    self.escape_char(c);
                }
                k = k + 1;
            }
            self.out.push('"');
            proof {
                assert(values@.take(values@.len() as int) =~= values@);
                assert(self.out@ =~= o0 + array_text(nodes, values@));
            }
        } else {
            self.out.push('[');
            let ghost o1 = self.out@;
            let mut k: usize = 0;
            while k < values.len()
                invariant
                    k <= values@.len(),
                    self.g@ == nodes,
                    self.g == old(self).g,
                    self.g.wf(),
                    forall|j: int| 0 <= j < values@.len() ==> (#[trigger] values@[j]).0 < nodes.len(),
                    self.out@ == o1 + elements_text(nodes, values@.take(k as int)),
                decreases values@.len() - k,
            {
                let ghost ok = self.out@;
                proof {
                    assert(values@.take(k + 1).drop_last() =~= values@.take(k as int));
                    assert(values@.take(k + 1).last() == values@[k as int]);
                }
                if k != 0 {
                    self.out.push(',');
                    self.out.push(' ');
                }
                let ghost oc = self.out@;
                let v = values[k];
                if let Node::Const(ch) = *self.g.index(v) {
                    self.out.push('\'');
                    self.escape_char(ch);
                    self.out.push('\'');
                } else {
                    self.pretty_node(v, false);
                }
                proof {
                    assert(self.out@ =~= oc + element_text(nodes, v));
                    assert(self.out@ =~= o1 + elements_text(nodes, values@.take(k + 1)));
                }
                k = k + 1;
            }
            self.out.push(']');
            proof {
                assert(values@.take(values@.len() as int) =~= values@);
                assert(self.out@ =~= o0 + array_text(nodes, values@));
            }
        }
    }

    /// Writes an effect.
    fn pretty_effect(&mut self, effect: &Effect)
        requires
            old(self).g.wf(),
            crate::block::effect_below(*effect, old(self).g@.len()),
        ensures
            final(self).out@ == old(self).out@ + effect_text(old(self).g@, *effect),
            final(self).g == old(self).g,
    {
        let ghost o0 = self.out@;
        let ghost nodes = self.g@;
        match effect {
            Effect::Output(values) => {
                self.write_str("output(");
                self.pretty_array(values);
                self.out.push(')');
                proof {
                    reveal_strlit("output(");
                }
            },
            Effect::Input(id) => {
                self.write_str("let ");
                self.pretty_node(*id, false);
                self.write_str(" = input()");
                proof {
                    reveal_strlit("let ");
                    reveal_strlit(" = input()");
                }
            },
            Effect::GuardShift(offset) => {
                self.write_str("guard_shift(");
                self.write_decimal(offset.0);
                self.out.push(')');
                proof {
                    reveal_strlit("guard_shift(");
                }
            },
        }
        proof {
            assert(self.out@ =~= o0 + effect_text(nodes, *effect));
        }
    }

    /// Writes a block: its effects, the copies that its values read, the
    /// cells it assigns and the shift it makes.
    #[verifier::rlimit(40)]
    fn pretty_block(&mut self, block: &Block, ind: &Vec<char>)
        requires
            old(self).g.wf(),
            block.nodes_below(old(self).g@.len()),
            block.fits(),
        ensures
            final(self).out@ == old(self).out@ + block_text(old(self).g@, block, ind@),
            final(self).g == old(self).g,
    {
        let ghost o0 = self.out@;
        let ghost nodes = self.g@;
        let mut k: usize = 0;
        while k < block.effects.len()
            invariant
                k <= block.effects@.len(),
                self.g@ == nodes,
                self.g == old(self).g,
                self.g.wf(),
                block.nodes_below(nodes.len()),
                self.out@ == o0 + effects_text(nodes, block.effects@.take(k as int), ind@),
            decreases block.effects@.len() - k,
        {
            proof {
                assert(block.effects@.take(k + 1).drop_last() =~= block.effects@.take(k as int));
                assert(crate::block::effect_below(block.effects@[k as int], nodes.len()));
            }
            self.indent(ind);
            self.pretty_effect(&block.effects[k]);
            self.out.push('\n');
            proof {
                assert(self.out@ =~= o0 + effects_text(nodes, block.effects@.take(k + 1), ind@));
            }
            k = k + 1;
        }
        proof {
            assert(block.effects@.take(block.effects@.len() as int) =~= block.effects@);
        }
        let ghost o1 = self.out@;
        let mut copies: Vec<i64> = Vec::new();
        let mut k: usize = 0;
        while k < block.memory.len()
            invariant
                k <= block.memory@.len(),
                self.g@ == nodes,
                self.g.wf(),
                block.nodes_below(nodes.len()),
                copies@ == memory_copies(nodes, block.memory@.take(k as int)),
            decreases block.memory@.len() - k,
        {
            proof {
                assert(block.memory@.take(k + 1).drop_last() =~= block.memory@.take(k as int));
                assert(block.memory@[k as int] matches Some(id) ==> id.0 < nodes.len());
            }
            if let Some(node) = block.memory[k] {
                visit_copies_into(self.g, node, &mut copies);
            }
            k = k + 1;
        }
        proof {
            assert(block.memory@.take(block.memory@.len() as int) =~= block.memory@);
        }
        let mut j: usize = 0;
        while j < copies.len()
            invariant
                j <= copies@.len(),
                self.g@ == nodes,
                self.g == old(self).g,
                self.out@ == o1 + copies_text(copies@.take(j as int), ind@),
            decreases copies@.len() - j,
        {
            let ghost oj = self.out@;
            proof {
                assert(copies@.take(j + 1).drop_last() =~= copies@.take(j as int));
                assert(copies@.take(j + 1).last() == copies@[j as int]);
            }
            let copy = copies[j];
            self.indent(ind);
            self.write_str("let ");
            self.pretty_copy(copy);
            self.write_str(" = p[");
            self.write_decimal(copy);
            self.write_str("]\n");
            proof {
                reveal_strlit("let ");
                reveal_strlit(" = p[");
                reveal_strlit("]\n");
                assert(self.out@ =~= o1 + copies_text(copies@.take(j + 1), ind@));
            }
            j = j + 1;
        }
        proof {
            assert(copies@.take(copies@.len() as int) =~= copies@);
        }
        let ghost o2 = self.out@;
        let mut k: usize = 0;
        while k < block.memory.len()
            invariant
                k <= block.memory@.len(),
                self.g@ == nodes,
                self.g == old(self).g,
                self.g.wf(),
                block.nodes_below(nodes.len()),
                block.fits(),
                self.out@ == o2 + assigns_text(nodes, block, k as int, ind@),
            decreases block.memory@.len() - k,
        {
            proof {
                assert(block.memory@[k as int] matches Some(id) ==> id.0 < nodes.len());
            }
            if let Some(node) = block.memory[k] {
                let offset: i64 = (block.min_offset.0 as i128 + k as i128) as i64;
                if *self.g.index(node) != Node::Copy(crate::node::Offset(offset), block.id) {
                    self.indent(ind);
                    self.write_str("p[");
                    self.write_decimal(offset);
                    self.write_str("] = ");
                    self.pretty_node(node, true);
                    self.out.push('\n');
                    proof {
                        reveal_strlit("p[");
                        reveal_strlit("] = ");
                    }
                }
            }
            proof {
                assert(self.out@ =~= o2 + assigns_text(nodes, block, k + 1, ind@));
            }
            k = k + 1;
        }
        let ghost o3 = self.out@;
        if block.offset.0 != 0 {
            self.indent(ind);
            self.write_str("shift(");
            self.write_decimal(block.offset.0);
            self.write_str(")\n");
            proof {
                reveal_strlit("shift(");
                reveal_strlit(")\n");
            }
        }
        proof {
            assert(self.out@ =~= o0 + block_text(nodes, block, ind@));
        }
    }

    /// Writes a control-flow graph: a block as its lines, a sequence as its
    /// items with each block in braces, and a loop or `If` with its body
    /// indented in braces.
    #[verifier::rlimit(40)]
    fn pretty_cfg(&mut self, cfg: &Cfg, ind: &Vec<char>)
        requires
            old(self).g.wf(),
            cfg_below(*cfg, old(self).g@.len()),
        ensures
            final(self).out@ == old(self).out@ + cfg_text(old(self).g@, *cfg, ind@),
            final(self).g == old(self).g,
        decreases cfg,
    {
        let ghost o0 = self.out@;
        let ghost nodes = self.g@;
        match cfg {
            Cfg::Block(block) => {
                self.pretty_block(block, ind);
            },
            Cfg::Sequence(seq) => {
                let ghost items = seq.cfgs@;
                let ghost c0 = *cfg;
                proof {
                    assert(c0 == Cfg::Sequence(*seq));
                    assert forall|j: int| 0 <= j < items.len() implies cfg_below(#[trigger] items[j], nodes.len()) by {
                        assert(cfg_below(seq.spec_cfgs()[j], nodes.len()));
                    }
                }
                let mut k: usize = 0;
                while k < seq.cfgs.len()
                    invariant
                        k <= items.len(),
                        items == seq.cfgs@,
                        c0 == *cfg,
                        c0 == Cfg::Sequence(*seq),
                        forall|j: int| 0 <= j < items.len() ==> cfg_below(#[trigger] items[j], nodes.len()),
                        self.g@ == nodes,
                        self.g == old(self).g,
                        self.g.wf(),
                        cfg_below(*cfg, nodes.len()),
                        self.out@ == o0 + items_text(nodes, items.take(k as int), ind@),
                    decreases items.len() - k,
                {
                    let ghost ok = self.out@;
                    proof {
                        assert(items.take(k + 1).drop_last() =~= items.take(k as int));
                        assert(items.take(k + 1)[k as int] == items[k as int]);
                        assert(cfg_below(items[k as int], nodes.len()));
                    }
                    let item = &seq.cfgs[k];
                    match item {
                        Cfg::Block(block) => {
                            self.indent(ind);
                            self.write_str("{\n");
                            let deeper = deeper_indent(ind);
                            self.pretty_block(block, &deeper);
                            self.indent(ind);
                            self.write_str("}\n");
                            proof {
                                reveal_strlit("{\n");
                                reveal_strlit("}\n");
                            }
                        },
                        _ => {
                            proof {
                                assert(decreases_to!(c0 => c0->Sequence_0));
                                assert(c0->Sequence_0 == *seq);
                                assert(decreases_to!(*seq => seq.cfgs));
                                assert(decreases_to!(seq.cfgs => seq.cfgs@));
                                assert(decreases_to!(seq.cfgs@ => seq.cfgs@[k as int]));
                                assert(decreases_to!(c0 => *item));
                            }
                            self.pretty_cfg(item, ind);
                        },
                    }
                    proof {
                        assert(self.out@ =~= o0 + items_text(nodes, items.take(k + 1), ind@));
                    }
                    k = k + 1;
                }
                proof {
                    assert(items.take(items.len() as int) =~= items);
                }
            },
            Cfg::Loop(body) => {
                self.indent(ind);
                self.write_str("while p[0] != 0 {\n");
                let deeper = deeper_indent(ind);
                self.pretty_cfg(body, &deeper);
                self.indent(ind);
                self.write_str("}\n");
                proof {
                    reveal_strlit("while p[0] != 0 {\n");
                    reveal_strlit("}\n");
                    assert(self.out@ =~= o0 + cfg_text(nodes, *cfg, ind@));
                }
            },
            Cfg::If(body) => {
                self.indent(ind);
                self.write_str("if p[0] != 0 {\n");
                let deeper = deeper_indent(ind);
                self.pretty_cfg(body, &deeper);
                self.indent(ind);
                self.write_str("}\n");
                proof {
                    reveal_strlit("if p[0] != 0 {\n");
                    reveal_strlit("}\n");
                    assert(self.out@ =~= o0 + cfg_text(nodes, *cfg, ind@));
                }
            },
        }
    }

    /// Writes the value of a node, in parentheses when `grouped`.
    fn group_node(&mut self, node: NodeId, grouped: bool, use_copies: bool)
        requires
            old(self).g.wf(),
            node.0 < old(self).g@.len(),
        ensures
            final(self).out@ == old(self).out@ + group(node_text(old(self).g@, node, use_copies), grouped),
            final(self).g == old(self).g,
        decreases node.0, 1nat,
    {
        let ghost o0 = self.out@;
        if grouped {
            self.out.push('(');
        }
        self.pretty_node(node, use_copies);
        if grouped {
            self.out.push(')');
        }
        proof {
            assert(self.out@ =~= o0 + group(node_text(self.g@, node, use_copies), grouped));
        }
    }
}

/// `String`'s `FromIterator<char>`: the string of the characters, in
/// order.
#[verifier::external_body]
fn chars_to_string(chars: Vec<char>) -> (s: String)
    ensures
        s@ == chars@,
{
    chars.into_iter().collect()
}

impl Cfg {
    /// Prints the control-flow graph as pseudocode. Each block lists its
    /// effects, binds the copies that its values read, assigns its cells and
    /// shifts; a sequence lists its items, each block in braces; a loop or
    /// `If` holds its body, indented, in braces.
    pub fn pretty(&self, g: &Graph) -> (s: String)
        requires
            g.wf(),
            cfg_below(*self, g@.len()),
            cfg_local(g@, *self),
        ensures
            s@ == cfg_text(g@, *self, Seq::empty()),
    {
        let mut p = PrettyPrinter::new(g);
        let ind: Vec<char> = Vec::new();
        p.pretty_cfg(self, &ind);
        proof {
            assert(ind@ =~= Seq::<char>::empty());
        }
        chars_to_string(p.out)
    }

    /// Returns whether the values that each block assigns copy only from
    /// that block, as printing requires.
    pub fn copies_are_local(&self, g: &Graph) -> (r: bool)
        requires
            g.wf(),
            cfg_below(*self, g@.len()),
        ensures
            r == cfg_local(g@, *self),
        decreases self,
    {
        match self {
            Cfg::Block(block) => {
                let mut k: usize = 0;
                while k < block.memory.len()
                    invariant
                        g.wf(),
                        k <= block.memory@.len(),
                        *self == Cfg::Block(*block),
                        block.nodes_below(g@.len()),
                        forall|j: int|
                            0 <= j < k && (#[trigger] block.memory@[j]) is Some ==> copies_local(
                                g@,
                                block.memory@[j]->0,
                                block.id,
                            ),
                    decreases block.memory@.len() - k,
                {
                    proof {
                        assert(block.memory@[k as int] matches Some(id) ==> id.0 < g@.len());
                    }
                    if let Some(node) = block.memory[k] {
                        if !node_copies_local(g, node, block.id) {
                            proof {
                                assert(block.memory@[k as int] is Some);
                                assert(!block_local(g@, block));
                                assert(*self == Cfg::Block(*block));
                                assert(!cfg_local(g@, Cfg::Block(*block)));
                            }
                            return false;
                        }
                    }
                    k = k + 1;
                }
                true
            },
            Cfg::Sequence(seq) => {
                let ghost c0 = *self;
                proof {
                    assert forall|j: int| 0 <= j < seq.cfgs@.len() implies cfg_below(#[trigger] seq.cfgs@[j], g@.len()) by {
                        assert(cfg_below(seq.spec_cfgs()[j], g@.len()));
                    }
                }
                let mut k: usize = 0;
                while k < seq.cfgs.len()
                    invariant
                        g.wf(),
                        k <= seq.cfgs@.len(),
                        c0 == *self,
                        c0 == Cfg::Sequence(*seq),
                        forall|j: int| 0 <= j < seq.cfgs@.len() ==> cfg_below(#[trigger] seq.cfgs@[j], g@.len()),
                        forall|j: int| 0 <= j < k ==> cfg_local(g@, #[trigger] seq.cfgs@[j]),
                    decreases seq.cfgs@.len() - k,
                {
                    proof {
                        assert(cfg_below(seq.cfgs@[k as int], g@.len()));
                        assert(decreases_to!(c0 => c0->Sequence_0));
                        assert(c0->Sequence_0 == *seq);
                        assert(decreases_to!(*seq => seq.cfgs));
                        assert(decreases_to!(seq.cfgs => seq.cfgs@));
                        assert(decreases_to!(seq.cfgs@ => seq.cfgs@[k as int]));
                    }
                    if !seq.cfgs[k].copies_are_local(g) {
                        return false;
                    }
                    k = k + 1;
                }
                true
            },
            Cfg::Loop(body) => body.copies_are_local(g),
            Cfg::If(body) => body.copies_are_local(g),
        }
    }
}

} // verus!
