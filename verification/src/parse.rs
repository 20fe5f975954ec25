//! Parsing Brainfuck source into a control-flow graph.

use vstd::prelude::*;

use crate::block::{effect_io, guards, io_events, lemma_events_push, BlockBuilder, Effect, IoEvent};
use crate::node::{add8, eval, lemma_eval_extend, BlockId, InputId, Offset};
use crate::ast::is_command;
use crate::egraph::NodeId;
use crate::node::Node;
use crate::run::{
    block_runs, lemma_block_runs_extend, lemma_fresh_runs, lemma_finish_runs, lemma_reads_concat, lemma_run_skip,
    builder_runs, has_command, io_free, is_plain_command, lemma_add8_assoc, lemma_io_ok_extend, lemma_run_bounds,
    run_guards, run_left, run_offset, run_reads, run_right, run_value,
};
use crate::cfg::{cfg_below, lemma_cfg_below_mono, skeleton, Cfg, Sequence};
use crate::egraph::Graph;

verus! {

/// An error from parsing a Brainfuck program.
#[derive(Clone, Copy, Debug, PartialEq, Eq, Structural)]
pub enum ParseError {
    /// Unmatched `[`.
    UnclosedLoop,
    /// Unmatched `]`.
    UnopenedLoop,
}

impl ParseError {
    /// The message that describes the error.
    pub fn message(&self) -> (m: &'static str)
        ensures
            m@ == match self {
                ParseError::UnclosedLoop => "unmatched ["@,
                ParseError::UnopenedLoop => "unmatched ]"@,
            },
    {
        match self {
            ParseError::UnclosedLoop => "unmatched [",
            ParseError::UnopenedLoop => "unmatched ]",
        }
    }
}

/// The change of loop depth that a byte makes: `[` opens, `]` closes.
pub open spec fn depth_step(c: u8) -> int {
    if c == 91 {
        1
    } else if c == 93 {
        -1
    } else {
        0
    }
}

/// The loop depth reached over `s[i..j]`.
pub open spec fn depth(s: Seq<u8>, i: int, j: int) -> int
    decreases j - i,
{
    if j <= i {
        0
    } else {
        depth(s, i, j - 1) + depth_step(s[j - 1])
    }
}

/// The brackets of `s[i..j]`, in order.
pub open spec fn brackets(s: Seq<u8>, i: int, j: int) -> Seq<u8>
    decreases j - i,
{
    if j <= i {
        Seq::empty()
    } else if s[j - 1] == 91 || s[j - 1] == 93 {
        brackets(s, i, j - 1).push(s[j - 1])
    } else {
        brackets(s, i, j - 1)
    }
}


/// Depth adds up over adjacent ranges.
pub proof fn lemma_depth_split(s: Seq<u8>, i: int, j: int, k: int)
    requires
        i <= j <= k,
    ensures
        depth(s, i, k) == depth(s, i, j) + depth(s, j, k),
    decreases k - j,
{
    if j < k {
        lemma_depth_split(s, i, j, k - 1);
    }
}

/// Brackets concatenate over adjacent ranges.
proof fn lemma_brackets_split(s: Seq<u8>, i: int, j: int, k: int)
    requires
        i <= j <= k,
    ensures
        brackets(s, i, k) == brackets(s, i, j) + brackets(s, j, k),
    decreases k - j,
{
    if j == k {
        assert(brackets(s, i, j) + brackets(s, j, k) =~= brackets(s, i, j));
    } else {
        lemma_brackets_split(s, i, j, k - 1);
        if s[k - 1] == 91 || s[k - 1] == 93 {
            assert(brackets(s, i, j) + brackets(s, j, k - 1).push(s[k - 1]) =~= (brackets(s, i, j)
                + brackets(s, j, k - 1)).push(s[k - 1]));
        }
    }
}

/// Whether the loop opened just before `p0` closes at `c`: the bracket at
/// `c` takes the depth below zero for the first time.
pub open spec fn closes_at(s: Seq<u8>, p0: int, c: int) -> bool {
    &&& p0 <= c < s.len()
    &&& s[c] == 93
    &&& depth(s, p0, c) == 0
    &&& forall|q: int| p0 <= q <= c ==> #[trigger] depth(s, p0, q) >= 0
}

/// Whether the depth stays at or above zero over `s[p0..]`.
pub open spec fn never_below(s: Seq<u8>, p0: int) -> bool {
    forall|q: int| p0 <= q <= s.len() ==> #[trigger] depth(s, p0, q) >= 0
}

/// Whether `s[a..b]` holds no command, brackets included.
pub open spec fn quiet(s: Seq<u8>, a: int, b: int) -> bool {
    forall|k: int| a <= k < b ==> !is_command(#[trigger] s[k])
}

/// Whether `s[a..b]` holds no bracket.
pub open spec fn flat(s: Seq<u8>, a: int, b: int) -> bool {
    forall|k: int| a <= k < b ==> #[trigger] s[k] != 91 && s[k] != 93
}

/// Whether `cfg` is what the source `s[a..b]` parses to, in a graph with
/// the nodes `nodes`, the bytes read being the inputs from `n0` on: a block
/// does what the commands of a span without brackets do; a loop is a `[`,
/// its body and a `]`, with no command around them; a sequence splits the
/// span among its parts, each reading the inputs after those before it.
pub open spec fn parsed(cfg: Cfg, s: Seq<u8>, a: int, b: int, nodes: Seq<Node>, n0: int) -> bool
    decreases cfg,
{
    match cfg {
        Cfg::Block(blk) => {
            &&& 0 <= a <= b <= s.len()
            &&& flat(s, a, b)
            &&& has_command(s.subrange(a, b))
            &&& block_runs(&blk, s.subrange(a, b), nodes, n0)
        },
        Cfg::Loop(body) => exists|i: int, j: int|
            #![trigger quiet(s, a, i), quiet(s, j, b)]
            {
                &&& 0 <= a <= i
                &&& i + 2 <= j <= b <= s.len()
                &&& quiet(s, a, i)
                &&& quiet(s, j, b)
                &&& s[i] == 91
                &&& s[j - 1] == 93
                &&& parsed(*body, s, i + 1, j - 1, nodes, n0)
            },
        Cfg::If(_) => false,
        Cfg::Sequence(q) => if q.cfgs@.len() == 0 {
            0 <= a <= b <= s.len() && quiet(s, a, b)
        } else {
            exists|cuts: Seq<int>|
                #![trigger cuts.len()]
                {
                    &&& cuts.len() == q.cfgs@.len() + 1
                    &&& cuts[0] == a
                    &&& cuts[cuts.len() - 1] == b
                    &&& forall|i: int, j: int| 0 <= i <= j < cuts.len() ==> #[trigger] cuts[i] <= #[trigger] cuts[j]
                    &&& forall|k: int|
                        0 <= k < q.cfgs@.len() ==> parsed(
                            #[trigger] q.cfgs@[k],
                            s,
                            cuts[k],
                            cuts[k + 1],
                            nodes,
                            n0 + run_reads(s.subrange(a, cuts[k])),
                        )
                }
        },
    }
}

/// A parse stays one when the graph grows.
proof fn lemma_parsed_extend(cfg: Cfg, s: Seq<u8>, a: int, b: int, nodes: Seq<Node>, more: Seq<Node>, n0: int)
    requires
        parsed(cfg, s, a, b, nodes, n0),
        cfg_below(cfg, nodes.len()),
        nodes.len() <= more.len(),
        more.take(nodes.len() as int) == nodes,
    ensures
        parsed(cfg, s, a, b, more, n0),
    decreases cfg,
{
    match cfg {
        Cfg::Block(blk) => {
            lemma_block_runs_extend(&blk, s.subrange(a, b), nodes, more, n0);
        },
        Cfg::Loop(body) => {
            let (i, j) = choose|i: int, j: int|
                #![trigger quiet(s, a, i), quiet(s, j, b)]
                {
                    &&& 0 <= a <= i
                    &&& i + 2 <= j <= b <= s.len()
                    &&& quiet(s, a, i)
                    &&& quiet(s, j, b)
                    &&& s[i] == 91
                    &&& s[j - 1] == 93
                    &&& parsed(*body, s, i + 1, j - 1, nodes, n0)
                };
            lemma_parsed_extend(*body, s, i + 1, j - 1, nodes, more, n0);
        },
        Cfg::If(_) => {},
        Cfg::Sequence(q) => {
            if q.cfgs@.len() > 0 {
                let cuts = choose|cuts: Seq<int>|
                    #![trigger cuts.len()]
                    {
                        &&& cuts.len() == q.cfgs@.len() + 1
                        &&& cuts[0] == a
                        &&& cuts[cuts.len() - 1] == b
                        &&& forall|i: int, j: int| 0 <= i <= j < cuts.len() ==> #[trigger] cuts[i] <= #[trigger] cuts[j]
                        &&& forall|k: int|
                            0 <= k < q.cfgs@.len() ==> parsed(
                                #[trigger] q.cfgs@[k],
                                s,
                                cuts[k],
                                cuts[k + 1],
                                nodes,
                                n0 + run_reads(s.subrange(a, cuts[k])),
                            )
                    };
                assert forall|k: int| 0 <= k < q.cfgs@.len() implies parsed(
                    #[trigger] q.cfgs@[k],
                    s,
                    cuts[k],
                    cuts[k + 1],
                    more,
                    n0 + run_reads(s.subrange(a, cuts[k])),
                ) by {
                    assert(cfg_below(q.spec_cfgs()[k], nodes.len()));
                    lemma_parsed_extend(q.cfgs@[k], s, cuts[k], cuts[k + 1], nodes, more, n0 + run_reads(s.subrange(a, cuts[k])));
                }
            }
        },
    }
}

/// A loop takes in the text without commands that follows it.
proof fn lemma_parsed_loop_extend(cfg: Cfg, s: Seq<u8>, a: int, b: int, e: int, nodes: Seq<Node>, n0: int)
    requires
        cfg is Loop,
        parsed(cfg, s, a, b, nodes, n0),
        b <= e <= s.len(),
        quiet(s, b, e),
    ensures
        parsed(cfg, s, a, e, nodes, n0),
{
    if let Cfg::Loop(body) = cfg {
        let (i, j) = choose|i: int, j: int|
            #![trigger quiet(s, a, i), quiet(s, j, b)]
            {
                &&& 0 <= a <= i
                &&& i + 2 <= j <= b <= s.len()
                &&& quiet(s, a, i)
                &&& quiet(s, j, b)
                &&& s[i] == 91
                &&& s[j - 1] == 93
                &&& parsed(*body, s, i + 1, j - 1, nodes, n0)
            };
        assert(quiet(s, j, e));
    }
}

/// A parser of Brainfuck source.
struct Parser<'s> {
    src: &'s [u8],
    pos: usize,
}

impl<'s> Parser<'s> {
    /// Constructs a new parser.
    fn new(src: &'s [u8]) -> (p: Self)
        ensures
            p.src@ == src@,
            p.pos == 0,
    {
        Parser { src, pos: 0 }
    }
}


/// Whether the nodes `a` start the nodes `b`.
spec fn prefix_of(a: Seq<Node>, b: Seq<Node>) -> bool {
    a.len() <= b.len() && b.take(a.len() as int) == a
}

/// The builder's pointer and memory lie within `-r..=r`, and one past it.
spec fn builder_within(bb: &BlockBuilder, r: int) -> bool {
    let b = bb.spec_block();
    &&& -r <= b.offset.0 <= r
    &&& b.memory@.len() > 0 ==> -r <= b.min_offset.0 && b.min_offset.0 + b.memory@.len() <= r + 1
}

/// A builder whose memory covers a range that holds a cell has a cell.
proof fn lemma_touched_nonempty(bb: &BlockBuilder, old: &BlockBuilder)
    requires
        bb.touched(old),
    ensures
        bb.spec_block().memory@.len() > 0,
{
}

/// A cell that a well-formed builder assigns holds a node of the graph.
proof fn lemma_cell_below(bb: &BlockBuilder, n: nat, off: int)
    requires
        bb.wf(n),
    ensures
        bb.spec_block().cell(off) matches Some(c) ==> c.0 < n,
{
    let b = bb.spec_block();
    let i = off - b.min_offset.0;
    if 0 <= i < b.memory@.len() {
        assert(b.memory@[i] matches Some(id) ==> id.0 < n);
    }
}

/// Runs one command other than a bracket on the builder.
#[verifier::rlimit(60)]
fn run_command(block: &mut BlockBuilder, ch: u8, g: &mut Graph, Ghost(w): Ghost<Seq<u8>>, Ghost(n0): Ghost<int>, Ghost(r): Ghost<int>)
    requires
        is_plain_command(ch),
        old(g).wf(),
        old(block).wf(old(g)@.len()),
        builder_runs(old(block), w, old(g)@, n0),
        builder_within(old(block), r),
        0 <= r,
        2 * r + 3 <= usize::MAX,
        r + 1 <= i64::MAX,
        old(g).spec_next_input().0 == n0 + run_reads(w),
        n0 + run_reads(w) < u32::MAX,
    ensures
        final(g).wf(),
        final(g).extends(old(g)),
        final(g).spec_next_block() == old(g).spec_next_block(),
        final(g).spec_next_input().0 == n0 + run_reads(w.push(ch)),
        final(block).wf(final(g)@.len()),
        builder_within(final(block), r + 1),
        builder_runs(final(block), w.push(ch), final(g)@, n0),
{
    let ghost b0 = *block;
    let ghost g0 = *g;
    let ghost w2 = w.push(ch);
    proof {
        assert(w2.drop_last() =~= w);
        assert(w2.last() == ch);
        assert(has_command(w2)) by {
            assert(is_plain_command(w2[w.len() as int]));
        }
        if io_free(w2) {
            assert forall|i: int| 0 <= i < w.len() implies #[trigger] w[i] != 46 && w[i] != 44 by {
                assert(w2[i] == w[i]);
            }
            assert(w2[w.len() as int] == ch);
        }
    }
    if ch == 62 || ch == 60 {
        let delta: i64 = if ch == 62 { 1 } else { -1 };
        block.shift(delta);
        proof {
            g.lemma_extends_refl();
            let b = block.spec_block();
            let p = b0.spec_block();
            lemma_events_push(p.effects@, Effect::GuardShift(b.offset));
            assert(io_events(b.effects@) == io_events(p.effects@)) by {
                if b.effects@ != p.effects@ {
                    assert(effect_io(Effect::GuardShift(b.offset)) =~= Seq::<IoEvent>::empty());
                    assert(io_events(p.effects@) + Seq::<IoEvent>::empty() =~= io_events(p.effects@));
                }
            }
            assert forall|id: BlockId, copy: spec_fn(Offset, BlockId) -> u8, input: spec_fn(InputId) -> u8, off: int|
                #[trigger] block.value_at(g@, off, id, copy, input) == run_value(w2, off, id, copy, input, n0) by {
                assert(block.addend(off) == b0.addend(off));
                assert(b.cell(off) == p.cell(off));
                assert(b0.value_at(g@, off, id, copy, input) == run_value(w, off, id, copy, input, n0));
            }
            lemma_run_bounds(w);
            if io_free(w2) {
                assert forall|off: int| #[trigger] block.spec_block().cell(off) is None by {
                    assert(b.cell(off) == p.cell(off));
                    assert(p.cell(off) is None);
                }
            }
        }
    } else if ch == 43 || ch == 45 {
        let addend: u8 = if ch == 43 { 1 } else { 255 };
        block.add(addend);
        proof {
            g.lemma_extends_refl();
            let b = block.spec_block();
            let p = b0.spec_block();
            let o = p.offset.0 as int;
            assert forall|id: BlockId, copy: spec_fn(Offset, BlockId) -> u8, input: spec_fn(InputId) -> u8, off: int|
                #[trigger] block.value_at(g@, off, id, copy, input) == run_value(w2, off, id, copy, input, n0) by {
                assert(b.cell(off) == p.cell(off));
                assert(b0.value_at(g@, off, id, copy, input) == run_value(w, off, id, copy, input, n0));
                if off == o {
                    let base = match p.cell(off) {
                        Some(c) => eval(g@, c, copy, input),
                        None => copy(Offset(off as i64), id) as int,
                    };
                    let a = b0.addend(off) as int;
                    assert(add8(base, ((a + addend) % 256) as u8 as int) == add8(add8(base, a), addend as int)) by {
                        lemma_add8_assoc(base, a, addend as int);
                    }
                } else {
                    assert(block.addend(off) == b0.addend(off));
                }
            }
            lemma_touched_nonempty(block, &b0);
            if io_free(w2) {
                assert forall|off: int| #[trigger] block.spec_block().cell(off) is None by {
                    assert(b.cell(off) == p.cell(off));
                    assert(p.cell(off) is None);
                }
            }
        }
    } else if ch == 46 {
        block.output(g);
        proof {
            g.lemma_extends(&g0);
            let b = block.spec_block();
            let p = b0.spec_block();
            let e0 = io_events(p.effects@);
            let e = io_events(b.effects@);
            assert(e.drop_last() =~= e0);
            lemma_io_ok_extend(e0, g0@, g@, w, n0);
            assert forall|id: BlockId, copy: spec_fn(Offset, BlockId) -> u8, input: spec_fn(InputId) -> u8, off: int|
                #[trigger] block.value_at(g@, off, id, copy, input) == run_value(w2, off, id, copy, input, n0) by {
                assert(block.addend(off) == b0.addend(off));
                assert(b.cell(off) == p.cell(off));
                assert(b0.value_at(g0@, off, id, copy, input) == run_value(w, off, id, copy, input, n0));
                if let Some(c) = p.cell(off) {
                    lemma_cell_below(&b0, g0@.len(), off);
                    lemma_eval_extend(g0@, g@, c, copy, input);
                }
            }
            lemma_touched_nonempty(block, &b0);
        }
    } else {
        block.input(g);
        proof {
            g.lemma_extends(&g0);
            let b = block.spec_block();
            let p = b0.spec_block();
            let o = p.offset.0 as int;
            let n = b.cell(o)->0;
            lemma_events_push(p.effects@, Effect::Input(n));
            assert(effect_io(Effect::Input(n)) == seq![IoEvent::Input(n)]);
            let e0 = io_events(p.effects@);
            let e = io_events(b.effects@);
            assert(e =~= e0.push(IoEvent::Input(n)));
            assert(e.drop_last() =~= e0);
            lemma_io_ok_extend(e0, g0@, g@, w, n0);
            assert forall|id: BlockId, copy: spec_fn(Offset, BlockId) -> u8, input: spec_fn(InputId) -> u8, off: int|
                #[trigger] block.value_at(g@, off, id, copy, input) == run_value(w2, off, id, copy, input, n0) by {
                assert(b0.value_at(g0@, off, id, copy, input) == run_value(w, off, id, copy, input, n0));
                if off == o {
                    assert(block.addend(off) == 0);
                    assert(eval(g@, n, copy, input) == input(InputId((n0 + run_reads(w)) as u32)) as int);
                } else {
                    assert(block.addend(off) == b0.addend(off));
                    assert(b.cell(off) == p.cell(off));
                    if let Some(c) = p.cell(off) {
                        lemma_cell_below(&b0, g0@.len(), off);
                        lemma_eval_extend(g0@, g@, c, copy, input);
                    }
                }
            }
            lemma_touched_nonempty(block, &b0);
        }
    }
}

/// Whether `cfgs` split the brackets `w` among them, as `skeleton` says of
/// a sequence.
spec fn split_by(cfgs: Seq<Cfg>, w: Seq<u8>, cuts: Seq<int>) -> bool {
    &&& cuts.len() == cfgs.len() + 1
    &&& cuts[0] == 0
    &&& cuts[cuts.len() - 1] == w.len()
    &&& forall|i: int, j: int| 0 <= i <= j < cuts.len() ==> #[trigger] cuts[i] <= #[trigger] cuts[j]
    &&& forall|k: int| 0 <= k < cfgs.len() ==> skeleton(#[trigger] cfgs[k], w.subrange(cuts[k], cuts[k + 1]))
}

/// Appending a part whose brackets are `v` keeps a split.
proof fn lemma_split_push(cfgs: Seq<Cfg>, w: Seq<u8>, cuts: Seq<int>, cfg: Cfg, v: Seq<u8>)
    requires
        split_by(cfgs, w, cuts),
        skeleton(cfg, v),
    ensures
        split_by(cfgs.push(cfg), w + v, cuts.push((w + v).len() as int)),
{
    let c2 = cuts.push((w + v).len() as int);
    let w2 = w + v;
    assert forall|k: int| 0 <= k < cfgs.push(cfg).len() implies skeleton(
        #[trigger] cfgs.push(cfg)[k],
        w2.subrange(c2[k], c2[k + 1]),
    ) by {
        if k < cfgs.len() {
            assert(cuts[k] <= cuts[k + 1] <= cuts[cuts.len() - 1]);
            assert(w2.subrange(c2[k], c2[k + 1]) =~= w.subrange(cuts[k], cuts[k + 1]));
        } else {
            assert(w2.subrange(c2[k], c2[k + 1]) =~= v);
        }
    }
    assert forall|i: int, j: int| 0 <= i <= j < c2.len() implies #[trigger] c2[i] <= #[trigger] c2[j] by {
        if j == c2.len() - 1 && i < j {
            assert(cuts[i] <= cuts[cuts.len() - 1]);
        }
    }
}

/// The bytes that `w` reads are no more than its length.
proof fn lemma_reads_le(w: Seq<u8>)
    ensures
        0 <= run_reads(w) <= w.len(),
    decreases w.len(),
{
    if w.len() > 0 {
        lemma_reads_le(w.drop_last());
    }
}

/// The reads of adjacent spans of `s` add up.
proof fn lemma_reads_split(s: Seq<u8>, a: int, b: int, c: int)
    requires
        0 <= a <= b <= c <= s.len(),
    ensures
        run_reads(s.subrange(a, c)) == run_reads(s.subrange(a, b)) + run_reads(s.subrange(b, c)),
{
    assert(s.subrange(a, c) =~= s.subrange(a, b) + s.subrange(b, c));
    lemma_reads_concat(s.subrange(a, b), s.subrange(b, c));
}

/// A span with no command but brackets reads nothing.
proof fn lemma_reads_none(s: Seq<u8>, a: int, b: int)
    requires
        0 <= a <= b <= s.len(),
        forall|k: int| a <= k < b ==> #[trigger] s[k] != 44,
    ensures
        run_reads(s.subrange(a, b)) == 0,
    decreases b - a,
{
    if a < b {
        lemma_reads_none(s, a, b - 1);
        assert(s.subrange(a, b).drop_last() =~= s.subrange(a, b - 1));
    } else {
        assert(s.subrange(a, b) =~= Seq::<u8>::empty());
    }
}

impl<'s> Parser<'s> {
    /// Parses the root or a loop: up to the end of the source for the root,
    /// and up to the `]` that closes the loop for a loop.
    #[verifier::rlimit(100)]
    fn parse(&self, g: &mut Graph, root: bool, start: usize) -> (r: Result<(Cfg, usize), ParseError>)
        requires
            old(g).wf(),
            start <= self.src@.len(),
            2 * self.src@.len() + 1 <= usize::MAX,
            old(g).spec_next_block().0 + (self.src@.len() - start) < u32::MAX,
            old(g).spec_next_input().0 + (self.src@.len() - start) < u32::MAX,
        ensures
            r matches Ok((_, end)) ==> start <= end <= self.src@.len(),
            final(g).wf(),
            final(g).extends(old(g)),
            r matches Ok((_, end)) ==> final(g).spec_next_block().0 <= old(g).spec_next_block().0 + (end - start)
                + (if root { 1int } else { 0int }),
            r matches Ok((_, end)) ==> final(g).spec_next_input().0 <= old(g).spec_next_input().0 + (end - start),
            ({
                let s = self.src@;
                let p0 = start as int;
                let n0 = old(g).spec_next_input().0 as int;
                if root {
                    match r {
                        Ok((cfg, end)) => never_below(s, p0) && depth(s, p0, s.len() as int) == 0
                            && end == s.len() && skeleton(cfg, brackets(s, p0, s.len() as int))
                            && cfg_below(cfg, final(g)@.len()) && parsed(cfg, s, p0, s.len() as int, final(g)@, n0)
                            && final(g).spec_next_input().0 == n0 + run_reads(s.subrange(p0, s.len() as int)),
                        Err(ParseError::UnopenedLoop) => !never_below(s, p0),
                        Err(ParseError::UnclosedLoop) => never_below(s, p0) && depth(s, p0, s.len() as int) > 0,
                    }
                } else {
                    match r {
                        Ok((cfg, end)) => closes_at(s, p0, end - 1) && skeleton(
                            cfg,
                            brackets(s, p0, end - 1),
                        ) && cfg_below(cfg, final(g)@.len()) && parsed(cfg, s, p0, end - 1, final(g)@, n0)
                            && final(g).spec_next_input().0 == n0 + run_reads(s.subrange(p0, end - 1)),
                        Err(ParseError::UnopenedLoop) => false,
                        Err(ParseError::UnclosedLoop) => never_below(s, p0),
                    }
                }
            }),
        decreases self.src@.len() - start,
    {
        let ghost s = self.src@;
        let ghost p0 = start as int;
        let mut pos = start;
        let ghost g0 = *g;
        let ghost nb0 = g.spec_next_block().0 as int;
        let ghost ni0 = g.spec_next_input().0 as int;
        let mut seq: Vec<Cfg> = Vec::new();
        let mut block = BlockBuilder::new();
        let mut loop_closed = root;
        let ghost mut cuts: Seq<int> = seq![0];
        let ghost mut seg: int = p0;
        let ghost mut pcuts: Seq<int> = seq![p0];
        proof {
            g.lemma_extends_refl();
            assert(split_by(seq@, brackets(s, p0, p0), cuts));
            assert(block.wf(g@.len()));
            lemma_fresh_runs(&block, g@, ni0);
            assert(s.subrange(p0, p0) =~= Seq::<u8>::empty());
            assert(run_reads(s.subrange(p0, p0)) == 0);
        }
        while pos < self.src.len()
            invariant_except_break
                !loop_closed || root,
                flat(s, seg, pos as int),
                builder_runs(&block, s.subrange(seg, pos as int), g@, ni0 + run_reads(s.subrange(p0, seg))),
                g.spec_next_input().0 == ni0 + run_reads(s.subrange(p0, pos as int)),
            invariant
                s == self.src@,
                p0 == start,
                g0 == *old(g),
                p0 <= pos <= s.len(),
                2 * s.len() + 1 <= usize::MAX,
                nb0 + (s.len() - p0) < u32::MAX,
                ni0 + (s.len() - p0) < u32::MAX,
                g0.wf(),
                g.wf(),
                g.extends(&g0),
                g.spec_next_block().0 <= nb0 + (pos - p0),
                g.spec_next_input().0 <= ni0 + (pos - p0),
                g0.spec_next_block().0 == nb0,
                g0.spec_next_input().0 == ni0,
                block.wf(g@.len()),
                builder_within(&block, pos as int),
                forall|k: int| 0 <= k < seq@.len() ==> cfg_below(#[trigger] seq@[k], g@.len()),
                loop_closed ==> !root ==> (closes_at(s, p0, pos - 1) && split_by(
                    seq@,
                    brackets(s, p0, pos - 1),
                    cuts,
                )),
                !loop_closed || root ==> (depth(s, p0, pos as int) == 0 && (forall|q: int|
                    p0 <= q <= pos ==> #[trigger] depth(s, p0, q) >= 0) && split_by(
                    seq@,
                    brackets(s, p0, pos as int),
                    cuts,
                )),
                root ==> loop_closed,
                p0 <= seg <= pos,
                pcuts.len() == seq@.len() + 1,
                pcuts[0] == p0,
                pcuts[pcuts.len() - 1] == seg,
                forall|i: int, j: int| 0 <= i <= j < pcuts.len() ==> #[trigger] pcuts[i] <= #[trigger] pcuts[j],
                forall|k: int|
                    0 <= k < seq@.len() ==> parsed(
                        #[trigger] seq@[k],
                        s,
                        pcuts[k],
                        pcuts[k + 1],
                        g@,
                        ni0 + run_reads(s.subrange(p0, pcuts[k])),
                    ),
                seq@.len() > 0 ==> seq@.last() is Loop,
                seq@.len() == 0 ==> seg == p0,
            ensures
                s == self.src@,
                p0 == start,
                g0 == *old(g),
                p0 <= pos <= s.len(),
                g.wf(),
                g.extends(&g0),
                g.spec_next_block().0 <= nb0 + (pos - p0),
                g.spec_next_input().0 <= ni0 + (pos - p0),
                block.wf(g@.len()),
                builder_within(&block, pos as int),
                forall|k: int| 0 <= k < seq@.len() ==> cfg_below(#[trigger] seq@[k], g@.len()),
                loop_closed && !root ==> g.spec_next_block().0 <= nb0 + (pos - 1 - p0),
                loop_closed && !root ==> (closes_at(s, p0, pos - 1) && split_by(
                    seq@,
                    brackets(s, p0, pos - 1),
                    cuts,
                )),
                !loop_closed || root ==> (pos == s.len() && depth(s, p0, pos as int) == 0
                    && (forall|q: int| p0 <= q <= pos ==> #[trigger] depth(s, p0, q) >= 0) && split_by(
                    seq@,
                    brackets(s, p0, pos as int),
                    cuts,
                )),
                ({
                    let e = if loop_closed && !root { pos - 1 } else { pos as int };
                    &&& p0 <= seg <= e
                    &&& flat(s, seg, e)
                    &&& builder_runs(&block, s.subrange(seg, e), g@, ni0 + run_reads(s.subrange(p0, seg)))
                    &&& g.spec_next_input().0 == ni0 + run_reads(s.subrange(p0, e))
                }),
                pcuts.len() == seq@.len() + 1,
                pcuts[0] == p0,
                pcuts[pcuts.len() - 1] == seg,
                forall|i: int, j: int| 0 <= i <= j < pcuts.len() ==> #[trigger] pcuts[i] <= #[trigger] pcuts[j],
                forall|k: int|
                    0 <= k < seq@.len() ==> parsed(
                        #[trigger] seq@[k],
                        s,
                        pcuts[k],
                        pcuts[k + 1],
                        g@,
                        ni0 + run_reads(s.subrange(p0, pcuts[k])),
                    ),
                seq@.len() > 0 ==> seq@.last() is Loop,
                seq@.len() == 0 ==> seg == p0,
            decreases s.len() - pos,
        {
            let ch = self.src[pos];
            let ghost pa = pos as int;
            let ghost gi = *g;
            let ghost w = s.subrange(seg, pa);
            let ghost nseg = ni0 + run_reads(s.subrange(p0, seg));
            proof {
                g.lemma_extends_refl();
                lemma_reads_split(s, p0, seg, pa);
                lemma_reads_le(s.subrange(seg, pa));
                lemma_reads_le(s.subrange(p0, seg));
                assert(s.subrange(seg, pa + 1) =~= w.push(ch));
                lemma_reads_split(s, p0, pa, pa + 1);
                assert(s.subrange(pa, pa + 1) =~= seq![ch]);
                assert(s.subrange(pa, pa + 1).drop_last() =~= Seq::<u8>::empty());
                assert(run_reads(Seq::<u8>::empty()) == 0);
                assert(s.subrange(pa, pa + 1).last() == ch);
                assert(run_reads(s.subrange(pa, pa + 1)) == (if ch == 44 { 1int } else { 0int }));
            }
            pos = pos + 1;
            proof {
                assert(depth(s, p0, pa + 1) == depth(s, p0, pa) + depth_step(ch));
                assert(brackets(s, p0, pa + 1) == if ch == 91 || ch == 93 {
                    brackets(s, p0, pa).push(ch)
                } else {
                    brackets(s, p0, pa)
                });
            }
            if ch == 62 || ch == 60 || ch == 43 || ch == 45 || ch == 46 || ch == 44 {
                run_command(&mut block, ch, g, Ghost(w), Ghost(nseg), Ghost(pa));
                proof {
                    g.lemma_extends(&gi);
                    assert(prefix_of(gi@, g@));
                    assert forall|k: int| 0 <= k < seq@.len() implies cfg_below(#[trigger] seq@[k], g@.len())
                        && parsed(seq@[k], s, pcuts[k], pcuts[k + 1], g@, ni0 + run_reads(s.subrange(p0, pcuts[k]))) by {
                        lemma_cfg_below_mono(seq@[k], gi@.len(), g@.len());
                        lemma_parsed_extend(seq@[k], s, pcuts[k], pcuts[k + 1], gi@, g@, ni0 + run_reads(s.subrange(p0, pcuts[k])));
                    }
                    assert(w.push(ch).drop_last() =~= w);
                    assert(run_reads(w.push(ch)) == run_reads(w) + (if ch == 44 { 1int } else { 0int }));
                    assert(flat(s, seg, pos as int));
                    assert(g.spec_next_input().0 == ni0 + run_reads(s.subrange(p0, pos as int)));
                }
            } else if ch == 91 {
                let ghost mut seg1 = seg;
                if !block.is_empty() {
                    let ghost gk = *g;
                    let ghost bk = block;
                    let b = block.finish(g);
                    proof {
                        g.lemma_extends(&gk);
                        Graph::lemma_extends_trans(&g0, &gk, g);
                        Graph::lemma_extends_trans(&gi, &gk, g);
                        assert forall|k: int| 0 <= k < seq@.len() implies cfg_below(#[trigger] seq@[k], g@.len())
                            && parsed(seq@[k], s, pcuts[k], pcuts[k + 1], g@, ni0 + run_reads(s.subrange(p0, pcuts[k]))) by {
                            lemma_cfg_below_mono(seq@[k], gk@.len(), g@.len());
                            lemma_parsed_extend(seq@[k], s, pcuts[k], pcuts[k + 1], gk@, g@, ni0 + run_reads(s.subrange(p0, pcuts[k])));
                        }
                        lemma_split_push(seq@, brackets(s, p0, pa), cuts, Cfg::Block(b), Seq::empty());
                        assert(brackets(s, p0, pa) + Seq::<u8>::empty() =~= brackets(s, p0, pa));
                        cuts = cuts.push(brackets(s, p0, pa).len() as int);
                        lemma_finish_runs(&bk, &b, w, gk@, g@, nseg);
                        assert(has_command(w));
                        assert(parsed(Cfg::Block(b), s, seg, pa, g@, nseg));
                        pcuts = pcuts.push(pa);
                        seg1 = pa;
                    }
                    seq.push(Cfg::Block(b));
                } else {
                    proof {
                        assert(!has_command(w));
                        assert forall|k: int| seg <= k < pa implies !is_command(#[trigger] s[k]) by {
                            assert(w[k - seg] == s[k]);
                            if is_plain_command(s[k]) {
                                assert(is_plain_command(w[k - seg]));
                            }
                        }
                    }
                }
                let ghost gk = *g;
                let ghost pk = pos as int;
                let ghost pc = pcuts;
                proof {
                    assert(g.extends(&gi));
                    assert(quiet(s, seg1, pa)) by {
                        if seg1 < pa {
                            assert(seg1 == seg);
                        }
                    }
                    assert(s[pa] == 91);
                    lemma_reads_split(s, p0, seg1, pk);
                    lemma_reads_none(s, seg1, pk);
                    lemma_reads_none(s, pa, pk);
                    lemma_reads_split(s, p0, seg, pa);
                    lemma_reads_split(s, p0, pa, pk);
                }
                let body = self.parse(g, false, pos);
                proof {
                    g.lemma_extends(&gk);
                    Graph::lemma_extends_trans(&g0, &gk, g);
                    Graph::lemma_extends_trans(&gi, &gk, g);
                }
                match body {
                    Ok((body, end)) => {
                        let ghost c = end - 1;
                        pos = end;
                        proof {
                            assert forall|k: int| 0 <= k < seq@.len() implies cfg_below(#[trigger] seq@[k], g@.len())
                                && parsed(seq@[k], s, pc[k], pc[k + 1], g@, ni0 + run_reads(s.subrange(p0, pc[k]))) by {
                                lemma_cfg_below_mono(seq@[k], gk@.len(), g@.len());
                                lemma_parsed_extend(seq@[k], s, pc[k], pc[k + 1], gk@, g@, ni0 + run_reads(s.subrange(p0, pc[k])));
                            }
                            lemma_depth_split(s, p0, pa + 1, end as int);
                            lemma_depth_split(s, pk, c, end as int);
                            assert forall|q: int| p0 <= q <= end implies #[trigger] depth(s, p0, q) >= 0 by {
                                if q > pa + 1 {
                                    lemma_depth_split(s, p0, pa + 1, q);
                                    if q <= c {
                                        assert(depth(s, pk, q) >= 0);
                                    } else {
                                        assert(q == end);
                                    }
                                } else if q == pa + 1 {
                                } else {
                                    assert(depth(s, p0, q) >= 0);
                                }
                            }
                            lemma_brackets_split(s, p0, pa, end as int);
                            lemma_brackets_split(s, pa, pk, end as int);
                            lemma_brackets_split(s, pk, c, end as int);
                            assert(brackets(s, pa, pa) =~= Seq::<u8>::empty());
                            assert(brackets(s, pa, pk) =~= seq![91u8]);
                            assert(brackets(s, c, c) =~= Seq::<u8>::empty());
                            assert(brackets(s, c, end as int) =~= seq![93u8]);
                            let v = brackets(s, pa, end as int);
                            assert(v =~= seq![91u8] + brackets(s, pk, c) + seq![93u8]);
                            assert(v.subrange(1, v.len() - 1) =~= brackets(s, pk, c));
                            assert(skeleton(Cfg::Loop(Box::new(body)), v));
                            lemma_split_push(seq@, brackets(s, p0, pa), cuts, Cfg::Loop(Box::new(body)), v);
                            cuts = cuts.push((brackets(s, p0, pa) + v).len() as int);
                            // The loop spans from the start of its segment past its `]`.
                            let nl = ni0 + run_reads(s.subrange(p0, seg1));
                            assert(nl == gk.spec_next_input().0);
                            assert(parsed(body, s, pa + 1, end - 1, g@, nl));
                            assert(s[c] == 93);
                            assert(quiet(s, end as int, end as int));
                            assert(quiet(s, seg1, pa) && quiet(s, end as int, end as int));
                            assert(parsed(Cfg::Loop(Box::new(body)), s, seg1, end as int, g@, nl));
                            lemma_reads_split(s, p0, pk, c);
                            lemma_reads_split(s, p0, c, end as int);
                            assert(s.subrange(c, end as int) =~= seq![93u8]);
                            assert(s.subrange(c, end as int).drop_last() =~= Seq::<u8>::empty());
                            pcuts = pcuts.push(end as int);
                            seg = end as int;
                            assert(s.subrange(seg, seg) =~= Seq::<u8>::empty());
                            lemma_fresh_runs(&block, g@, ni0 + run_reads(s.subrange(p0, seg)));
                        }
                        seq.push(Cfg::Loop(Box::new(body)));
                        proof {
                            assert forall|k: int| 0 <= k < seq@.len() implies parsed(
                                #[trigger] seq@[k],
                                s,
                                pcuts[k],
                                pcuts[k + 1],
                                g@,
                                ni0 + run_reads(s.subrange(p0, pcuts[k])),
                            ) by {
                                if k < seq@.len() - 1 {
                                    assert(pcuts[k] == pc[k] && pcuts[k + 1] == pc[k + 1]);
                                }
                            }
                            assert forall|i: int, j: int| 0 <= i <= j < pcuts.len() implies #[trigger] pcuts[i] <= #[trigger] pcuts[j] by {
                                if j == pcuts.len() - 1 && i < j {
                                    assert(pc[i] <= pc[pc.len() - 1]);
                                }
                            }
                            assert(g.spec_next_input().0 == ni0 + run_reads(s.subrange(p0, pos as int)));
                        }
                    },
                    Err(e) => {
                        proof {
                            assert forall|q: int| p0 <= q <= s.len() implies #[trigger] depth(s, p0, q) >= 0 by {
                                if q > pa + 1 {
                                    lemma_depth_split(s, p0, pa + 1, q);
                                    assert(depth(s, pk, q) >= 0);
                                } else if q == pa + 1 {
                                } else {
                                    assert(depth(s, p0, q) >= 0);
                                }
                            }
                            lemma_depth_split(s, p0, pa + 1, s.len() as int);
                            assert(depth(s, pk, s.len() as int) >= 0);
                        }
                        return Err(e);
                    },
                }
            } else if ch == 93 {
                if root {
                    return Err(ParseError::UnopenedLoop);
                }
                loop_closed = true;
                break;
            } else {
                proof {
                    lemma_run_skip(w, ch);
                    assert(builder_runs(&block, w.push(ch), g@, nseg));
                    assert(flat(s, seg, pos as int));
                    assert(g.spec_next_input().0 == ni0 + run_reads(s.subrange(p0, pos as int)));
                }
            }
            proof {
                Graph::lemma_extends_trans(&g0, &gi, g);
            }
        }
        if !loop_closed {
            return Err(ParseError::UnclosedLoop);
        }
        let ghost w = if root { brackets(s, p0, pos as int) } else { brackets(s, p0, pos - 1) };
        let ghost e = if root { pos as int } else { pos - 1 };
        let ghost nseg = ni0 + run_reads(s.subrange(p0, seg));
        if !block.is_empty() {
            let ghost gk = *g;
            let ghost bk = block;
            let b = block.finish(g);
            proof {
                g.lemma_extends(&gk);
                Graph::lemma_extends_trans(&g0, &gk, g);
                assert forall|k: int| 0 <= k < seq@.len() implies cfg_below(#[trigger] seq@[k], g@.len())
                    && parsed(seq@[k], s, pcuts[k], pcuts[k + 1], g@, ni0 + run_reads(s.subrange(p0, pcuts[k]))) by {
                    lemma_cfg_below_mono(seq@[k], gk@.len(), g@.len());
                    lemma_parsed_extend(seq@[k], s, pcuts[k], pcuts[k + 1], gk@, g@, ni0 + run_reads(s.subrange(p0, pcuts[k])));
                }
                lemma_finish_runs(&bk, &b, s.subrange(seg, e), gk@, g@, nseg);
                assert(parsed(Cfg::Block(b), s, seg, e, g@, nseg));
            }
            if seq.len() == 0 {
                proof {
                    assert(cuts[0] == 0);
                    assert(s.subrange(p0, p0) =~= Seq::<u8>::empty());
                }
                return Ok((Cfg::Block(b), pos));
            }
            proof {
                lemma_split_push(seq@, w, cuts, Cfg::Block(b), Seq::empty());
                assert(w + Seq::<u8>::empty() =~= w);
                cuts = cuts.push(w.len() as int);
                pcuts = pcuts.push(e);
            }
            seq.push(Cfg::Block(b));
        } else {
            proof {
                let ws = s.subrange(seg, e);
                assert(!has_command(ws));
                assert forall|k: int| seg <= k < e implies !is_command(#[trigger] s[k]) by {
                    assert(ws[k - seg] == s[k]);
                    if is_plain_command(s[k]) {
                        assert(is_plain_command(ws[k - seg]));
                    }
                }
                if seq@.len() > 0 {
                    let n = seq@.len() - 1;
                    lemma_parsed_loop_extend(seq@[n], s, pcuts[n], seg, e, g@, ni0 + run_reads(s.subrange(p0, pcuts[n])));
                    pcuts = pcuts.update(n + 1, e);
                }
            }
        }
        let ghost items = seq@;
        let cfg = Sequence::from_unflattened(seq).into_cfg();
        proof {
            if items.len() == 1 {
                assert(w.subrange(cuts[0], cuts[1]) =~= w);
                assert(cfg_below(items[0], g@.len()));
                assert(s.subrange(p0, p0) =~= Seq::<u8>::empty());
                assert(parsed(items[0], s, pcuts[0], pcuts[1], g@, ni0 + run_reads(s.subrange(p0, pcuts[0]))));
            } else {
                let q = cfg->Sequence_0;
                assert(q.spec_cfgs() == items);
                assert forall|k: int| 0 <= k < q.spec_cfgs().len() implies cfg_below(#[trigger] q.spec_cfgs()[k], g@.len()) by {
                    assert(cfg_below(items[k], g@.len()));
                }
                assert(split_by(items, w, cuts));
                assert(cuts.len() == q.spec_cfgs().len() + 1);
                assert(forall|k: int| 0 <= k < q.spec_cfgs().len() ==> skeleton(
                    #[trigger] q.spec_cfgs()[k],
                    w.subrange(cuts[k], cuts[k + 1]),
                ));
                assert(skeleton(cfg, w));
                if items.len() > 0 {
                    assert(pcuts.len() == q.cfgs@.len() + 1);
                    assert(forall|k: int| 0 <= k < q.cfgs@.len() ==> parsed(
                        #[trigger] q.cfgs@[k],
                        s,
                        pcuts[k],
                        pcuts[k + 1],
                        g@,
                        ni0 + run_reads(s.subrange(p0, pcuts[k])),
                    ));
                }
            }
        }
        Ok((cfg, pos))
    }
}


impl Graph {
    /// Parses a Brainfuck program to a CFG. It is refused with
    /// `UnopenedLoop` when a `]` closes no loop, and else with `UnclosedLoop`
    /// when a `[` is never closed; the loops of the CFG nest as the brackets
    /// of the program do, and each block does what the commands of its span
    /// do, reading the inputs that the graph numbers next in order. A block
    /// without I/O stores each cell its commands add a constant to as the sum
    /// of the cell's copy and that constant, inserted and idealized.
    pub fn parse(&mut self, src: &[u8]) -> (r: Result<Cfg, ParseError>)
        requires
            old(self).wf(),
            2 * src@.len() + 1 <= usize::MAX,
            old(self).spec_next_block().0 + src@.len() < u32::MAX,
            old(self).spec_next_input().0 + src@.len() < u32::MAX,
        ensures
            final(self).wf(),
            final(self).extends(old(self)),
            match r {
                Ok(cfg) => never_below(src@, 0) && depth(src@, 0, src@.len() as int) == 0 && skeleton(
                    cfg,
                    brackets(src@, 0, src@.len() as int),
                ) && cfg_below(cfg, final(self)@.len()) && parsed(
                    cfg,
                    src@,
                    0,
                    src@.len() as int,
                    final(self)@,
                    old(self).spec_next_input().0 as int,
                ) && final(self).spec_next_input().0 == old(self).spec_next_input().0 + run_reads(src@),
                Err(ParseError::UnopenedLoop) => !never_below(src@, 0),
                Err(ParseError::UnclosedLoop) => never_below(src@, 0) && depth(src@, 0, src@.len() as int) > 0,
            },
    {
        let parser = Parser::new(src);
        proof {
            assert(src@.subrange(0, src@.len() as int) =~= src@);
        }
        match parser.parse(self, true, 0) {
            Ok((cfg, _)) => Ok(cfg),
            Err(e) => Err(e),
        }
    }
}

} // verus!
