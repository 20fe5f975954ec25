//! What a run of Brainfuck commands without loops does: where it leaves the
//! cell pointer, what it leaves in each cell, what it prints and reads, and
//! which shifts it guards.

use vstd::prelude::*;

use crate::block::{
    finished_cell, guards, io_events, lemma_finished_cell_base, lemma_finished_cell_extend, Block, BlockBuilder,
    IoEvent,
};
use crate::egraph::NodeId;
use crate::node::{add8, eval, lemma_eval_extend, BlockId, InputId, Node, Offset};

verus! {

/// The move of the cell pointer that a command makes.
pub open spec fn step_of(c: u8) -> int {
    if c == 62 {
        1
    } else if c == 60 {
        -1
    } else {
        0
    }
}

/// Whether a byte is a command other than a bracket.
pub open spec fn is_plain_command(c: u8) -> bool {
    c == 62 || c == 60 || c == 43 || c == 45 || c == 46 || c == 44
}

/// Whether `w` holds a command other than a bracket.
pub open spec fn has_command(w: Seq<u8>) -> bool {
    exists|k: int| 0 <= k < w.len() && is_plain_command(#[trigger] w[k])
}

/// The offset of the cell pointer after the commands `w`.
pub open spec fn run_offset(w: Seq<u8>) -> int
    decreases w.len(),
{
    if w.len() == 0 {
        0
    } else {
        run_offset(w.drop_last()) + step_of(w.last())
    }
}

/// The number of bytes that the commands `w` read.
pub open spec fn run_reads(w: Seq<u8>) -> int
    decreases w.len(),
{
    if w.len() == 0 {
        0
    } else {
        run_reads(w.drop_last()) + if w.last() == 44 {
            1int
        } else {
            0int
        }
    }
}

/// The leftmost offset that the cell pointer reaches over `w`, or 0.
pub open spec fn run_left(w: Seq<u8>) -> int
    decreases w.len(),
{
    if w.len() == 0 {
        0
    } else if run_offset(w) < run_left(w.drop_last()) {
        run_offset(w)
    } else {
        run_left(w.drop_last())
    }
}

/// The rightmost offset that the cell pointer reaches over `w`, or 0.
pub open spec fn run_right(w: Seq<u8>) -> int
    decreases w.len(),
{
    if w.len() == 0 {
        0
    } else if run_offset(w) > run_right(w.drop_last()) {
        run_offset(w)
    } else {
        run_right(w.drop_last())
    }
}

/// The offsets that the commands `w` guard, in order: each time the cell
/// pointer goes past the range it covered before.
pub open spec fn run_guards(w: Seq<u8>) -> Seq<int>
    decreases w.len(),
{
    if w.len() == 0 {
        Seq::empty()
    } else {
        let p = w.drop_last();
        let o = run_offset(w);
        if o < run_left(p) || o > run_right(p) {
            run_guards(p).push(o)
        } else {
            run_guards(p)
        }
    }
}

/// The value of the cell at `off` after the commands `w`, when each cell
/// starts with its copy from block `id` and the bytes read are the inputs
/// from `n0` on.
pub open spec fn run_value(
    w: Seq<u8>,
    off: int,
    id: BlockId,
    copy: spec_fn(Offset, BlockId) -> u8,
    input: spec_fn(InputId) -> u8,
    n0: int,
) -> int
    decreases w.len(),
{
    if w.len() == 0 {
        copy(Offset(off as i64), id) as int
    } else {
        let p = w.drop_last();
        let v = run_value(p, off, id, copy, input, n0);
        let c = w.last();
        if off == run_offset(p) && c == 43 {
            add8(v, 1)
        } else if off == run_offset(p) && c == 45 {
            add8(v, 255)
        } else if off == run_offset(p) && c == 44 {
            input(InputId((n0 + run_reads(p)) as u32)) as int
        } else {
            v
        }
    }
}

/// Whether `events` are what the commands `w` print and read: each print of
/// the cell under the pointer, valued with unassigned cells copied from the
/// builder's block 0, and each read of the next input from `n0` on.
pub open spec fn io_ok(events: Seq<IoEvent>, nodes: Seq<Node>, w: Seq<u8>, n0: int) -> bool
    decreases w.len(),
{
    if w.len() == 0 {
        events.len() == 0
    } else {
        let p = w.drop_last();
        let c = w.last();
        if c == 46 {
            &&& events.len() > 0
            &&& io_ok(events.drop_last(), nodes, p, n0)
            &&& events.last() matches IoEvent::Output(v) && v.0 < nodes.len() && forall|
                copy: spec_fn(Offset, BlockId) -> u8,
                input: spec_fn(InputId) -> u8,
            |
                #[trigger] eval(nodes, v, copy, input) == run_value(p, run_offset(p), BlockId(0), copy, input, n0)
        } else if c == 44 {
            &&& events.len() > 0
            &&& io_ok(events.drop_last(), nodes, p, n0)
            &&& events.last() matches IoEvent::Input(x) && x.0 < nodes.len() && nodes[x.0 as int] == Node::Input(
                InputId((n0 + run_reads(p)) as u32),
            )
        } else {
            io_ok(events, nodes, p, n0)
        }
    }
}

/// Whether the commands `w` neither print nor read.
pub open spec fn io_free(w: Seq<u8>) -> bool {
    forall|i: int| 0 <= i < w.len() ==> #[trigger] w[i] != 46 && w[i] != 44
}

/// The constant that the commands `w` add to the cell at `off`, when they
/// neither print nor read: what they leave there when every cell starts at 0.
pub open spec fn run_addend(w: Seq<u8>, off: int, id: BlockId, n0: int) -> u8 {
    run_value(w, off, id, |o: Offset, b: BlockId| 0u8, |i: InputId| 0u8, n0) as u8
}

/// Whether block `b` does what the commands `w` do, with the bytes read
/// being the inputs from `n0` on: it leaves the cell pointer, the cells and
/// the guarded range where they leave them, and prints, reads and guards
/// what they do. When the commands neither print nor read, each cell they
/// add a constant to holds the node that finishing a block builds for it,
/// and no other cell is stored.
pub open spec fn block_runs(b: &Block, w: Seq<u8>, nodes: Seq<Node>, n0: int) -> bool {
    &&& io_free(w) ==> forall|k: int|
        0 <= k < b.memory@.len() ==> match #[trigger] b.memory@[k] {
            None => run_addend(w, b.min_offset.0 + k, b.id, n0) == 0,
            Some(r) => run_addend(w, b.min_offset.0 + k, b.id, n0) != 0 && finished_cell(
                nodes,
                r,
                Seq::empty(),
                None,
                b.min_offset.0 + k,
                b.id,
                run_addend(w, b.min_offset.0 + k, b.id, n0),
            ),
        }
    &&& b.offset.0 == run_offset(w)
    &&& b.guarded_left.0 == run_left(w)
    &&& b.guarded_right.0 == run_right(w)
    &&& guards(b.effects@) == run_guards(w)
    &&& io_ok(io_events(b.effects@), nodes, w, n0)
    &&& forall|copy: spec_fn(Offset, BlockId) -> u8, input: spec_fn(InputId) -> u8, off: int|
        i64::MIN <= off <= i64::MAX ==> #[trigger] b.cell_value(nodes, off, copy, input) == run_value(
            w,
            off,
            b.id,
            copy,
            input,
            n0,
        )
}

/// Whether the builder `bb` holds what the commands `w` do, with the bytes
/// read being the inputs from `n0` on: whatever ID its block is finished
/// with, its cells hold the values the commands leave.
pub open spec fn builder_runs(bb: &BlockBuilder, w: Seq<u8>, nodes: Seq<Node>, n0: int) -> bool {
    let b = bb.spec_block();
    &&& b.id == BlockId(0)
    &&& b.offset.0 == run_offset(w)
    &&& b.guarded_left.0 == run_left(w)
    &&& b.guarded_right.0 == run_right(w)
    &&& guards(b.effects@) == run_guards(w)
    &&& io_ok(io_events(b.effects@), nodes, w, n0)
    &&& forall|id: BlockId, copy: spec_fn(Offset, BlockId) -> u8, input: spec_fn(InputId) -> u8, off: int|
        #[trigger] bb.value_at(nodes, off, id, copy, input) == run_value(w, off, id, copy, input, n0)
    &&& io_free(w) ==> forall|off: int| #[trigger] b.cell(off) is None
    &&& !has_command(w) ==> {
        &&& b.memory@.len() == 0
        &&& b.effects@.len() == 0
        &&& b.offset == Offset(0)
        &&& b.min_offset == Offset(0)
        &&& b.guarded_left == Offset(0)
        &&& b.guarded_right == Offset(0)
    }
    &&& has_command(w) ==> !{
        &&& b.memory@.len() == 0
        &&& b.effects@.len() == 0
        &&& b.offset == Offset(0)
        &&& b.min_offset == Offset(0)
        &&& b.guarded_left == Offset(0)
        &&& b.guarded_right == Offset(0)
    }
}

/// The cell pointer stays within the range it reached, which holds 0.
pub proof fn lemma_run_bounds(w: Seq<u8>)
    ensures
        run_left(w) <= 0 <= run_right(w),
        run_left(w) <= run_offset(w) <= run_right(w),
    decreases w.len(),
{
    if w.len() > 0 {
        lemma_run_bounds(w.drop_last());
    }
}

/// Adding two constants to a byte one after the other is adding their sum.
pub proof fn lemma_add8_assoc(base: int, a: int, k: int)
    ensures
        add8(base, ((a + k) % 256) as u8 as int) == add8(add8(base, a), k),
{
    assert(0 <= (a + k) % 256 < 256);
    assert(((a + k) % 256) as u8 as int == (a + k) % 256);
    vstd::arithmetic::div_mod::lemma_add_mod_noop(base, a + k, 256);
    vstd::arithmetic::div_mod::lemma_add_mod_noop(base + a, k, 256);
    vstd::arithmetic::div_mod::lemma_mod_twice(k, 256);
    vstd::arithmetic::div_mod::lemma_add_mod_noop(base, a, 256);
    assert((base + (a + k)) == (base + a) + k);
    vstd::arithmetic::div_mod::lemma_mod_twice(base + a, 256);
    vstd::arithmetic::div_mod::lemma_add_mod_noop((base + a) % 256, k, 256);
    vstd::arithmetic::div_mod::lemma_mod_twice(base, 256);
    vstd::arithmetic::div_mod::lemma_add_mod_noop(base, (a + k) % 256, 256);
    vstd::arithmetic::div_mod::lemma_mod_twice(a + k, 256);
}

/// The prints and reads of a run stay valid when the graph grows.
pub proof fn lemma_io_ok_extend(events: Seq<IoEvent>, nodes: Seq<Node>, more: Seq<Node>, w: Seq<u8>, n0: int)
    requires
        io_ok(events, nodes, w, n0),
        nodes.len() <= more.len(),
        more.take(nodes.len() as int) == nodes,
    ensures
        io_ok(events, more, w, n0),
    decreases w.len(),
{
    if w.len() > 0 {
        let p = w.drop_last();
        let c = w.last();
        if c == 46 || c == 44 {
            lemma_io_ok_extend(events.drop_last(), nodes, more, p, n0);
            if let IoEvent::Output(v) = events.last() {
                if c == 46 {
                    assert forall|copy: spec_fn(Offset, BlockId) -> u8, input: spec_fn(InputId) -> u8|
                        #[trigger] eval(more, v, copy, input) == run_value(
                            p,
                            run_offset(p),
                            BlockId(0),
                            copy,
                            input,
                            n0,
                        ) by {
                        lemma_eval_extend(nodes, more, v, copy, input);
                    }
                }
            }
            if let IoEvent::Input(x) = events.last() {
                assert(more[x.0 as int] == more.take(nodes.len() as int)[x.0 as int]);
            }
        } else {
            lemma_io_ok_extend(events, nodes, more, p, n0);
        }
    }
}

/// A byte that is no command leaves a run as it is.
pub proof fn lemma_run_skip(w: Seq<u8>, c: u8)
    requires
        !is_plain_command(c),
    ensures
        run_offset(w.push(c)) == run_offset(w),
        run_reads(w.push(c)) == run_reads(w),
        run_left(w.push(c)) == run_left(w),
        run_right(w.push(c)) == run_right(w),
        run_guards(w.push(c)) == run_guards(w),
        has_command(w.push(c)) == has_command(w),
        forall|id: BlockId, copy: spec_fn(Offset, BlockId) -> u8, input: spec_fn(InputId) -> u8, off: int, n0: int|
            #[trigger] run_value(w.push(c), off, id, copy, input, n0) == run_value(w, off, id, copy, input, n0),
        forall|events: Seq<IoEvent>, nodes: Seq<Node>, n0: int|
            #[trigger] io_ok(events, nodes, w.push(c), n0) == io_ok(events, nodes, w, n0),
{
    let w2 = w.push(c);
    assert(w2.drop_last() =~= w);
    lemma_run_bounds(w);
    if has_command(w2) {
        let k = choose|k: int| 0 <= k < w2.len() && is_plain_command(#[trigger] w2[k]);
        assert(k < w.len());
        assert(w[k] == w2[k]);
    }
    if has_command(w) {
        let k = choose|k: int| 0 <= k < w.len() && is_plain_command(#[trigger] w[k]);
        assert(w2[k] == w[k]);
    }
}

/// A builder that holds nothing holds what no commands do.
pub proof fn lemma_fresh_runs(bb: &BlockBuilder, nodes: Seq<Node>, n0: int)
    requires
        bb.well_shaped(),
        bb.spec_block().id == BlockId(0),
        bb.spec_block().memory@.len() == 0,
        bb.spec_block().effects@.len() == 0,
        bb.spec_block().offset == Offset(0),
        bb.spec_block().min_offset == Offset(0),
        bb.spec_block().guarded_left == Offset(0),
        bb.spec_block().guarded_right == Offset(0),
    ensures
        builder_runs(bb, Seq::empty(), nodes, n0),
{
    let w = Seq::<u8>::empty();
    let b = bb.spec_block();
    assert(io_events(b.effects@) =~= Seq::<IoEvent>::empty());
    assert(guards(b.effects@) =~= Seq::<int>::empty());
    assert(run_guards(w) =~= Seq::<int>::empty());
    assert forall|id: BlockId, copy: spec_fn(Offset, BlockId) -> u8, input: spec_fn(InputId) -> u8, off: int|
        #[trigger] bb.value_at(nodes, off, id, copy, input) == run_value(w, off, id, copy, input, n0) by {
        assert(b.cell(off) is None);
        bb.lemma_addend_outside(off);
    }
}

/// A finished block does what its builder held.
pub proof fn lemma_finish_runs(
    bb: &BlockBuilder,
    b: &Block,
    w: Seq<u8>,
    nodes: Seq<Node>,
    more: Seq<Node>,
    n0: int,
)
    requires
        builder_runs(bb, w, nodes, n0),
        nodes.len() <= more.len(),
        more.take(nodes.len() as int) == nodes,
        b.effects == bb.spec_block().effects,
        b.offset == bb.spec_block().offset,
        b.guarded_left == bb.spec_block().guarded_left,
        b.guarded_right == bb.spec_block().guarded_right,
        b.min_offset == bb.spec_block().min_offset,
        b.memory@.len() == bb.spec_block().memory@.len(),
        forall|k: int|
            0 <= k < b.memory@.len() && bb.addend(b.min_offset.0 + k) == 0 ==> #[trigger] b.memory@[k]
                == bb.spec_block().memory@[k],
        forall|k: int|
            0 <= k < b.memory@.len() && bb.addend(b.min_offset.0 + k) != 0 ==> (#[trigger] b.memory@[k] matches Some(r)
                && finished_cell(
                more,
                r,
                nodes,
                bb.spec_block().memory@[k],
                b.min_offset.0 + k,
                b.id,
                bb.addend(b.min_offset.0 + k),
            )),
        forall|copy: spec_fn(Offset, BlockId) -> u8, input: spec_fn(InputId) -> u8, off: int|
            i64::MIN <= off <= i64::MAX ==> #[trigger] b.cell_value(more, off, copy, input) == bb.value_at(
                nodes,
                off,
                b.id,
                copy,
                input,
            ),
    ensures
        block_runs(b, w, more, n0),
{
    lemma_io_ok_extend(io_events(b.effects@), nodes, more, w, n0);
    if io_free(w) {
        assert forall|k: int| 0 <= k < b.memory@.len() implies match #[trigger] b.memory@[k] {
            None => run_addend(w, b.min_offset.0 + k, b.id, n0) == 0,
            Some(r) => run_addend(w, b.min_offset.0 + k, b.id, n0) != 0 && finished_cell(
                more,
                r,
                Seq::empty(),
                None,
                b.min_offset.0 + k,
                b.id,
                run_addend(w, b.min_offset.0 + k, b.id, n0),
            ),
        } by {
            let off = b.min_offset.0 + k;
            let zc = |o: Offset, b: BlockId| 0u8;
            let zi = |i: InputId| 0u8;
            assert(bb.spec_block().cell(off) is None);
            assert(bb.spec_block().memory@[k] is None);
            assert(bb.value_at(nodes, off, b.id, zc, zi) == run_value(w, off, b.id, zc, zi, n0));
            assert(run_addend(w, off, b.id, n0) == bb.addend(off));
            if bb.addend(off) != 0 {
                let r = b.memory@[k]->0;
                lemma_finished_cell_base(more, r, nodes, None, off, b.id, bb.addend(off));
            }
        }
    }
    assert forall|copy: spec_fn(Offset, BlockId) -> u8, input: spec_fn(InputId) -> u8, off: int|
        i64::MIN <= off <= i64::MAX implies #[trigger] b.cell_value(more, off, copy, input) == run_value(
            w,
            off,
            b.id,
            copy,
            input,
            n0,
        ) by {
        assert(bb.value_at(nodes, off, b.id, copy, input) == run_value(w, off, b.id, copy, input, n0));
    }
}

/// What a block does stays what it does when the graph grows.
pub proof fn lemma_block_runs_extend(b: &Block, w: Seq<u8>, nodes: Seq<Node>, more: Seq<Node>, n0: int)
    requires
        block_runs(b, w, nodes, n0),
        b.nodes_below(nodes.len()),
        nodes.len() <= more.len(),
        more.take(nodes.len() as int) == nodes,
    ensures
        block_runs(b, w, more, n0),
{
    lemma_io_ok_extend(io_events(b.effects@), nodes, more, w, n0);
    if io_free(w) {
        assert forall|k: int| 0 <= k < b.memory@.len() implies match #[trigger] b.memory@[k] {
            None => run_addend(w, b.min_offset.0 + k, b.id, n0) == 0,
            Some(r) => run_addend(w, b.min_offset.0 + k, b.id, n0) != 0 && finished_cell(
                more,
                r,
                Seq::empty(),
                None,
                b.min_offset.0 + k,
                b.id,
                run_addend(w, b.min_offset.0 + k, b.id, n0),
            ),
        } by {
            if let Some(r) = b.memory@[k] {
                lemma_finished_cell_extend(
                    nodes,
                    more,
                    r,
                    Seq::empty(),
                    None,
                    b.min_offset.0 + k,
                    b.id,
                    run_addend(w, b.min_offset.0 + k, b.id, n0),
                );
            }
        }
    }
    assert forall|copy: spec_fn(Offset, BlockId) -> u8, input: spec_fn(InputId) -> u8, off: int|
        i64::MIN <= off <= i64::MAX implies #[trigger] b.cell_value(more, off, copy, input) == run_value(
            w,
            off,
            b.id,
            copy,
            input,
            n0,
        ) by {
        assert(b.cell_value(nodes, off, copy, input) == run_value(w, off, b.id, copy, input, n0));
        if let Some(c) = b.cell(off) {
            let i = off - b.min_offset.0;
            assert(b.memory@[i] matches Some(id) ==> id.0 < nodes.len());
            lemma_eval_extend(nodes, more, c, copy, input);
        }
    }
}

/// The reads of adjacent runs add up.
pub proof fn lemma_reads_concat(a: Seq<u8>, b: Seq<u8>)
    ensures
        run_reads(a + b) == run_reads(a) + run_reads(b),
    decreases b.len(),
{
    if b.len() == 0 {
        assert(a + b =~= a);
    } else {
        lemma_reads_concat(a, b.drop_last());
        assert((a + b).drop_last() =~= a + b.drop_last());
        assert((a + b).last() == b.last());
    }
}

} // verus!
