//! Propagating constants into copies of the preceding block.

use vstd::prelude::*;

use crate::block::{
    copies_shiftable, effect_below, lemma_copies_shiftable, lemma_events_push,
    lemma_nodes_below_mono, lemma_shiftable_extend, lemma_shiftable_mono, memory_below, Block,
    Effect,
};
use crate::cfg::{
    cfg_below, folded, lemma_cfg_below_mono, lemma_folded_extend, spliced, unwrapped, Cfg, Sequence,
};
use crate::optimize::add_assign::prefix;
use crate::egraph::{copy_bound_of, children_below, Graph, NodeId};
use crate::node::{eval, lemma_eval_extend, lemma_eval_wf, BlockId, InputId, Node, Offset};

verus! {

/// The cell values seen by nodes of block `curr` once the copies that read a
/// constant that the preceding block `pred` leaves are replaced with it.
pub open spec fn const_copy(
    curr: BlockId,
    pred: &Block,
    nodes: Seq<Node>,
    copy: spec_fn(Offset, BlockId) -> u8,
) -> spec_fn(Offset, BlockId) -> u8 {
    |o: Offset, b: BlockId|
        {
            let c = pred.cell(pred.offset.0 + o.0);
            if b == curr && c is Some && (c->0).0 < nodes.len() && nodes[(c->0).0 as int] is Const {
                nodes[(c->0).0 as int]->Const_0
            } else {
                copy(o, b)
            }
        }
}

/// Whether node `r` of `nodes2` computes what node `x` of `nodes0` computes
/// with the constants of `pred` propagated into its copies of `curr`.
pub open spec fn const_value(
    nodes2: Seq<Node>,
    r: NodeId,
    nodes0: Seq<Node>,
    x: NodeId,
    curr: BlockId,
    pred: &Block,
) -> bool {
    forall|copy: spec_fn(Offset, BlockId) -> u8, input: spec_fn(InputId) -> u8|
        #[trigger] eval(nodes2, r, copy, input) == eval(nodes0, x, const_copy(curr, pred, nodes0, copy), input)
}

/// Propagating over a grown graph sees the same constants.
proof fn lemma_const_copy_extends(
    n1: Seq<Node>,
    n2: Seq<Node>,
    curr: BlockId,
    pred: &Block,
    copy: spec_fn(Offset, BlockId) -> u8,
)
    requires
        n1.len() <= n2.len(),
        n2.take(n1.len() as int) == n1,
        memory_below(pred.memory@, n1.len()),
    ensures
        const_copy(curr, pred, n2, copy) == const_copy(curr, pred, n1, copy),
{
    assert forall|o: Offset, b: BlockId|
        #[trigger] const_copy(curr, pred, n2, copy)(o, b) == const_copy(curr, pred, n1, copy)(o, b) by {
        let off = pred.offset.0 + o.0;
        if let Some(c) = pred.cell(off) {
            assert(pred.memory@[off - pred.min_offset.0] == Some(c));
            assert(n2.take(n1.len() as int)[c.0 as int] == n1[c.0 as int]);
        }
    }
    assert(const_copy(curr, pred, n2, copy) =~= const_copy(curr, pred, n1, copy));
}

/// A propagated value stays one when the graph grows.
proof fn lemma_const_value_extend(
    g2: &Graph,
    g3: &Graph,
    r: NodeId,
    nodes0: Seq<Node>,
    x: NodeId,
    curr: BlockId,
    pred: &Block,
)
    requires
        g3.extends(g2),
        r.0 < g2@.len(),
        const_value(g2@, r, nodes0, x, curr, pred),
    ensures
        const_value(g3@, r, nodes0, x, curr, pred),
{
    g3.lemma_extends(g2);
    assert forall|copy: spec_fn(Offset, BlockId) -> u8, input: spec_fn(InputId) -> u8|
        #[trigger] eval(g3@, r, copy, input) == eval(nodes0, x, const_copy(curr, pred, nodes0, copy), input) by {
        lemma_eval_extend(g2@, g3@, r, copy, input);
    }
}

/// A value propagated over a later graph is also propagated over an earlier
/// one, when the node and the cells of `pred` were already in it.
proof fn lemma_const_value_rebase(
    g0: &Graph,
    gk: &Graph,
    nodes2: Seq<Node>,
    r: NodeId,
    x: NodeId,
    curr: BlockId,
    pred: &Block,
)
    requires
        gk.extends(g0),
        x.0 < g0@.len(),
        memory_below(pred.memory@, g0@.len()),
        const_value(nodes2, r, gk@, x, curr, pred),
    ensures
        const_value(nodes2, r, g0@, x, curr, pred),
{
    gk.lemma_extends(g0);
    assert forall|copy: spec_fn(Offset, BlockId) -> u8, input: spec_fn(InputId) -> u8|
        #[trigger] eval(nodes2, r, copy, input) == eval(g0@, x, const_copy(curr, pred, g0@, copy), input) by {
        lemma_const_copy_extends(g0@, gk@, curr, pred, copy);
        lemma_eval_extend(g0@, gk@, x, const_copy(curr, pred, g0@, copy), input);
    }
}

impl NodeId {
    /// Copies the node, with copies replaced with their definition in the
    /// preceding block, if the definition is a constant.
    fn copy_const(self, curr: BlockId, pred: &Block, g: &mut Graph) -> (r: NodeId)
        requires
            old(g).wf(),
            (self.0 as int) < old(g)@.len(),
            memory_below(pred.memory@, old(g)@.len()),
            copies_shiftable(old(g)@, curr, pred.offset.0 as int, self.0 + 1),
        ensures
            final(g).wf(),
            final(g).extends(old(g)),
            final(g).spec_next_block() == old(g).spec_next_block(),
            final(g).spec_next_input() == old(g).spec_next_input(),
            (r.0 as int) < final(g)@.len(),
            const_value(final(g)@, r, old(g)@, self, curr, pred),
        decreases self.0,
    {
        let ghost g0 = *g;
        proof {
            g.lemma_wf_nodes();
            g.lemma_extends_refl();
        }
        let node = *g.index(self);
        match node {
            Node::Copy(offset, block) => {
                if block == curr {
                    assert(g@[self.0 as int] == node);
                    let off = Offset(pred.offset.0 + offset.0);
                    match pred.get_cell(off) {
                        Some(cell) => {
                            proof {
                                assert(pred.memory@[off.0 - pred.min_offset.0] == Some(cell));
                            }
                            if matches!(*g.index(cell), Node::Const(_)) {
                                cell
                            } else {
                                self
                            }
                        },
                        None => self,
                    }
                } else {
                    self
                }
            },
            Node::Const(_) | Node::Input(_) => self,
            Node::Add(lhs, rhs) => {
                let l = lhs.copy_const(curr, pred, g);
                let ghost g1 = *g;
                proof {
                    g.lemma_extends(&g0);
                    assert(children_below(g0@[self.0 as int], self.0 as int));
                    assert forall|i: int| 0 <= i < rhs.0 + 1 implies g@[i] == g0@[i] by {
                        assert(g@.take(g0@.len() as int)[i] == g0@[i]);
                    }
                    lemma_shiftable_mono(g0@, curr, pred.offset.0 as int, rhs.0 + 1, self.0 + 1);
                    lemma_shiftable_extend(&g0, g, curr, pred.offset.0 as int, rhs.0 + 1);
                }
                let r = rhs.copy_const(curr, pred, g);
                let ghost g2 = *g;
                proof {
                    Graph::lemma_extends_trans(&g0, &g1, &g2);
                    g2.lemma_extends(&g1);
                }
                let id = Node::Add(l, r).insert(g);
                proof {
                    Graph::lemma_extends_trans(&g0, &g2, g);
                    assert forall|copy: spec_fn(Offset, BlockId) -> u8, input: spec_fn(InputId) -> u8|
                        #[trigger] eval(g@, id, copy, input) == eval(g0@, self, const_copy(curr, pred, g0@, copy), input) by {
                        let m = const_copy(curr, pred, g0@, copy);
                        lemma_const_copy_extends(g0@, g1@, curr, pred, copy);
                        lemma_eval_extend(g1@, g2@, l, copy, input);
                        lemma_eval_extend(g0@, g1@, rhs, m, input);
                        lemma_eval_wf(&g0, self, m, input);
                    }
                }
                id
            },
            Node::Mul(lhs, rhs) => {
                let l = lhs.copy_const(curr, pred, g);
                let ghost g1 = *g;
                proof {
                    g.lemma_extends(&g0);
                    assert(children_below(g0@[self.0 as int], self.0 as int));
                    assert forall|i: int| 0 <= i < rhs.0 + 1 implies g@[i] == g0@[i] by {
                        assert(g@.take(g0@.len() as int)[i] == g0@[i]);
                    }
                    lemma_shiftable_mono(g0@, curr, pred.offset.0 as int, rhs.0 + 1, self.0 + 1);
                    lemma_shiftable_extend(&g0, g, curr, pred.offset.0 as int, rhs.0 + 1);
                }
                let r = rhs.copy_const(curr, pred, g);
                let ghost g2 = *g;
                proof {
                    Graph::lemma_extends_trans(&g0, &g1, &g2);
                    g2.lemma_extends(&g1);
                }
                let id = Node::Mul(l, r).insert(g);
                proof {
                    Graph::lemma_extends_trans(&g0, &g2, g);
                    assert forall|copy: spec_fn(Offset, BlockId) -> u8, input: spec_fn(InputId) -> u8|
                        #[trigger] eval(g@, id, copy, input) == eval(g0@, self, const_copy(curr, pred, g0@, copy), input) by {
                        let m = const_copy(curr, pred, g0@, copy);
                        lemma_const_copy_extends(g0@, g1@, curr, pred, copy);
                        lemma_eval_extend(g1@, g2@, l, copy, input);
                        lemma_eval_extend(g0@, g1@, rhs, m, input);
                        lemma_eval_wf(&g0, self, m, input);
                    }
                }
                id
            },
        }
    }
}


/// Whether `b2` is `b1` with the constants of `pred` propagated into the
/// values of its cells and outputs.
pub open spec fn const_copied(b2: &Block, b1: &Block, pred: &Block, nodes2: Seq<Node>, nodes0: Seq<Node>) -> bool {
    &&& b2.id == b1.id
    &&& b2.offset == b1.offset
    &&& b2.min_offset == b1.min_offset
    &&& b2.guarded_left == b1.guarded_left
    &&& b2.guarded_right == b1.guarded_right
    &&& b2.memory@.len() == b1.memory@.len()
    &&& forall|k: int|
        0 <= k < b1.memory@.len() ==> match (#[trigger] b1.memory@[k], b2.memory@[k]) {
            (None, None) => true,
            (Some(x), Some(y)) => y.0 < nodes2.len() && const_value(nodes2, y, nodes0, x, b1.id, pred),
            _ => false,
        }
    &&& b2.effects@.len() == b1.effects@.len()
    &&& forall|k: int|
        0 <= k < b1.effects@.len() ==> match (#[trigger] b1.effects@[k], b2.effects@[k]) {
            (Effect::Output(xs), Effect::Output(ys)) => xs@.len() == ys@.len() && forall|j: int|
                0 <= j < xs@.len() ==> (#[trigger] ys@[j]).0 < nodes2.len() && const_value(
                    nodes2,
                    ys@[j],
                    nodes0,
                    xs@[j],
                    b1.id,
                    pred,
                ),
            (Effect::Input(x), Effect::Input(y)) => x == y,
            (Effect::GuardShift(x), Effect::GuardShift(y)) => x == y,
            _ => false,
        }
}

/// Propagates constants into each value of an output.
fn copy_const_values(
    values: &Vec<NodeId>,
    curr: BlockId,
    pred: &Block,
    g: &mut Graph,
    Ghost(bound): Ghost<nat>,
) -> (out: Vec<NodeId>)
    requires
        old(g).wf(),
        bound <= old(g)@.len(),
        forall|k: int| 0 <= k < values@.len() ==> (#[trigger] values@[k]).0 < bound,
        memory_below(pred.memory@, old(g)@.len()),
        copies_shiftable(old(g)@, curr, pred.offset.0 as int, bound as int),
    ensures
        final(g).wf(),
        final(g).extends(old(g)),
        final(g).spec_next_block() == old(g).spec_next_block(),
        final(g).spec_next_input() == old(g).spec_next_input(),
        out@.len() == values@.len(),
        forall|k: int|
            0 <= k < values@.len() ==> (#[trigger] out@[k]).0 < final(g)@.len() && const_value(
                final(g)@,
                out@[k],
                old(g)@,
                values@[k],
                curr,
                pred,
            ),
{
    let ghost g0 = *g;
    proof {
        g.lemma_extends_refl();
    }
    let mut out: Vec<NodeId> = Vec::new();
    let mut k: usize = 0;
    while k < values.len()
        invariant
            g0.wf(),
            g.wf(),
            g.extends(&g0),
            g.spec_next_block() == g0.spec_next_block(),
            g.spec_next_input() == g0.spec_next_input(),
            k <= values@.len(),
            out@.len() == k,
            bound <= g0@.len(),
            forall|j: int| 0 <= j < values@.len() ==> (#[trigger] values@[j]).0 < bound,
            memory_below(pred.memory@, g0@.len()),
            copies_shiftable(g0@, curr, pred.offset.0 as int, bound as int),
            forall|j: int|
                0 <= j < k ==> (#[trigger] out@[j]).0 < g@.len() && const_value(g@, out@[j], g0@, values@[j], curr, pred),
        decreases values@.len() - k,
    {
        let ghost gk = *g;
        proof {
            g.lemma_extends(&g0);
            lemma_shiftable_mono(g0@, curr, pred.offset.0 as int, values@[k as int].0 + 1, bound as int);
            lemma_shiftable_extend(&g0, g, curr, pred.offset.0 as int, values@[k as int].0 + 1);
        }
        let r = values[k].copy_const(curr, pred, g);
        proof {
            g.lemma_extends(&gk);
            Graph::lemma_extends_trans(&g0, &gk, g);
            lemma_const_value_rebase(&g0, &gk, g@, r, values@[k as int], curr, pred);
            assert forall|j: int| 0 <= j < k implies (#[trigger] out@[j]).0 < g@.len() && const_value(
                g@,
                out@[j],
                g0@,
                values@[j],
                curr,
                pred,
            ) by {
                lemma_const_value_extend(&gk, g, out@[j], g0@, values@[j], curr, pred);
            }
        }
        out.push(r);
        k = k + 1;
    }
    out
}

impl Block {
    /// Replaces copies with their definition in the preceding block, if the
    /// definition is a constant.
    #[verifier::rlimit(40)]
    pub fn copy_const(&mut self, pred: &Block, g: &mut Graph)
        requires
            old(g).wf(),
            old(self).nodes_below(old(g)@.len()),
            pred.nodes_below(old(g)@.len()),
            copies_shiftable(old(g)@, old(self).id, pred.offset.0 as int, old(g)@.len() as int),
        ensures
            final(g).wf(),
            final(g).extends(old(g)),
            final(g).spec_next_block() == old(g).spec_next_block(),
            final(g).spec_next_input() == old(g).spec_next_input(),
            final(self).nodes_below(final(g)@.len()),
            const_copied(final(self), old(self), pred, final(g)@, old(g)@),
    {
        let ghost g0 = *g;
        let ghost b0 = *self;
        let curr = self.id;
        proof {
            g.lemma_extends_refl();
        }
        let mut k: usize = 0;
        while k < self.memory.len()
            invariant
                g0.wf(),
                g.wf(),
                g.extends(&g0),
                g.spec_next_block() == g0.spec_next_block(),
                g.spec_next_input() == g0.spec_next_input(),
                curr == b0.id,
                b0.nodes_below(g0@.len()),
                pred.nodes_below(g0@.len()),
                copies_shiftable(g0@, curr, pred.offset.0 as int, g0@.len() as int),
                self.id == b0.id,
                self.effects == b0.effects,
                self.offset == b0.offset,
                self.min_offset == b0.min_offset,
                self.guarded_left == b0.guarded_left,
                self.guarded_right == b0.guarded_right,
                self.memory@.len() == b0.memory@.len(),
                k <= self.memory@.len(),
                forall|j: int| k <= j < self.memory@.len() ==> self.memory@[j] == b0.memory@[j],
                forall|j: int|
                    0 <= j < k ==> match (#[trigger] b0.memory@[j], self.memory@[j]) {
                        (None, None) => true,
                        (Some(x), Some(y)) => y.0 < g@.len() && const_value(g@, y, g0@, x, curr, pred),
                        _ => false,
                    },
            decreases self.memory@.len() - k,
        {
            let ghost gk = *g;
            let ghost mk = self.memory@;
            proof {
                g.lemma_extends_refl();
            }
            if let Some(cell) = self.memory[k] {
                proof {
                    g.lemma_extends(&g0);
                    assert(b0.memory@[k as int] == Some(cell));
                    assert(memory_below(b0.memory@, g0@.len()));
                    lemma_shiftable_mono(g0@, curr, pred.offset.0 as int, cell.0 + 1, g0@.len() as int);
                    lemma_shiftable_extend(&g0, g, curr, pred.offset.0 as int, cell.0 + 1);
                }
                let r = cell.copy_const(curr, pred, g);
                proof {
                    lemma_const_value_rebase(&g0, &gk, g@, r, cell, curr, pred);
                }
                self.memory.set(k, Some(r));
            }
            proof {
                Graph::lemma_extends_trans(&g0, &gk, g);
                g.lemma_extends(&gk);
                assert forall|j: int|
                    0 <= j < k + 1 implies match (#[trigger] b0.memory@[j], self.memory@[j]) {
                        (None, None) => true,
                        (Some(x), Some(y)) => y.0 < g@.len() && const_value(g@, y, g0@, x, curr, pred),
                        _ => false,
                    } by {
                    if j < k {
                        assert(self.memory@[j] == mk[j]);
                        if let (Some(x), Some(y)) = (b0.memory@[j], self.memory@[j]) {
                            lemma_const_value_extend(&gk, g, y, g0@, x, curr, pred);
                        }
                    }
                }
            }
            k = k + 1;
        }
        let ghost g1 = *g;
        let ghost m1 = self.memory@;
        proof {
            g.lemma_extends_refl();
        }
        let mut effects: Vec<Effect> = Vec::new();
        let mut k: usize = 0;
        while k < self.effects.len()
            invariant
                g0.wf(),
                g.wf(),
                g.extends(&g0),
                g.extends(&g1),
                g.spec_next_block() == g0.spec_next_block(),
                g.spec_next_input() == g0.spec_next_input(),
                curr == b0.id,
                b0.nodes_below(g0@.len()),
                pred.nodes_below(g0@.len()),
                copies_shiftable(g0@, curr, pred.offset.0 as int, g0@.len() as int),
                self.effects == b0.effects,
                self.memory@ == m1,
                self.id == b0.id,
                self.offset == b0.offset,
                self.min_offset == b0.min_offset,
                self.guarded_left == b0.guarded_left,
                self.guarded_right == b0.guarded_right,
                m1.len() == b0.memory@.len(),
                forall|j: int|
                    0 <= j < m1.len() ==> match (#[trigger] b0.memory@[j], m1[j]) {
                        (None, None) => true,
                        (Some(x), Some(y)) => y.0 < g1@.len() && const_value(g1@, y, g0@, x, curr, pred),
                        _ => false,
                    },
                k <= self.effects@.len(),
                effects@.len() == k,
                forall|j: int|
                    0 <= j < k ==> match (#[trigger] b0.effects@[j], effects@[j]) {
                        (Effect::Output(xs), Effect::Output(ys)) => xs@.len() == ys@.len() && forall|q: int|
                            0 <= q < xs@.len() ==> (#[trigger] ys@[q]).0 < g@.len() && const_value(
                                g@,
                                ys@[q],
                                g0@,
                                xs@[q],
                                curr,
                                pred,
                            ),
                        (Effect::Input(x), Effect::Input(y)) => x == y,
                        (Effect::GuardShift(x), Effect::GuardShift(y)) => x == y,
                        _ => false,
                    },
            decreases self.effects@.len() - k,
        {
            let ghost gk = *g;
            let ghost ek = effects@;
            proof {
                g.lemma_extends_refl();
                g.lemma_extends(&g0);
                assert(effect_below(b0.effects@[k as int], g0@.len()));
            }
            match &self.effects[k] {
                Effect::Output(values) => {
                    proof {
                        lemma_shiftable_extend(&g0, g, curr, pred.offset.0 as int, g0@.len() as int);
                    }
                    let ys = copy_const_values(values, curr, pred, g, Ghost(g0@.len()));
                    proof {
                        assert forall|q: int| 0 <= q < values@.len() implies (#[trigger] ys@[q]).0 < g@.len()
                            && const_value(g@, ys@[q], g0@, values@[q], curr, pred) by {
                            lemma_const_value_rebase(&g0, &gk, g@, ys@[q], values@[q], curr, pred);
                        }
                    }
                    effects.push(Effect::Output(ys));
                },
                Effect::Input(x) => {
                    effects.push(Effect::Input(*x));
                },
                Effect::GuardShift(o) => {
                    effects.push(Effect::GuardShift(*o));
                },
            }
            proof {
                Graph::lemma_extends_trans(&g0, &gk, g);
                Graph::lemma_extends_trans(&g1, &gk, g);
                g.lemma_extends(&gk);
                assert forall|j: int|
                    0 <= j < k + 1 implies match (#[trigger] b0.effects@[j], effects@[j]) {
                        (Effect::Output(xs), Effect::Output(ys)) => xs@.len() == ys@.len() && forall|q: int|
                            0 <= q < xs@.len() ==> (#[trigger] ys@[q]).0 < g@.len() && const_value(
                                g@,
                                ys@[q],
                                g0@,
                                xs@[q],
                                curr,
                                pred,
                            ),
                        (Effect::Input(x), Effect::Input(y)) => x == y,
                        (Effect::GuardShift(x), Effect::GuardShift(y)) => x == y,
                        _ => false,
                    } by {
                    if j < k {
                        assert(effects@[j] == ek[j]);
                        if let (Effect::Output(xs), Effect::Output(ys)) = (b0.effects@[j], effects@[j]) {
                            assert forall|q: int| 0 <= q < xs@.len() implies (#[trigger] ys@[q]).0 < g@.len()
                                && const_value(g@, ys@[q], g0@, xs@[q], curr, pred) by {
                                lemma_const_value_extend(&gk, g, ys@[q], g0@, xs@[q], curr, pred);
                            }
                        }
                    }
                }
            }
            k = k + 1;
        }
        self.effects = effects;
        proof {
            g.lemma_extends(&g1);
            g.lemma_extends(&g0);
            assert forall|j: int| 0 <= j < self.memory@.len() implies (#[trigger] self.memory@[j] matches Some(id) ==> id.0 < g@.len()) by {
                if let (Some(x), Some(y)) = (b0.memory@[j], self.memory@[j]) {
                }
            }
            assert forall|j: int| 0 <= j < b0.memory@.len() implies match (#[trigger] b0.memory@[j], self.memory@[j]) {
                (None, None) => true,
                (Some(x), Some(y)) => y.0 < g@.len() && const_value(g@, y, g0@, x, curr, pred),
                _ => false,
            } by {
                if let (Some(x), Some(y)) = (b0.memory@[j], self.memory@[j]) {
                    lemma_const_value_extend(&g1, g, y, g0@, x, curr, pred);
                }
            }
            assert forall|j: int| 0 <= j < self.effects@.len() implies effect_below(#[trigger] self.effects@[j], g@.len()) by {
                if let Effect::Output(ys) = self.effects@[j] {
                    assert forall|q: int| 0 <= q < ys@.len() implies (#[trigger] ys@[q]).0 < g@.len() by {
                        if let Effect::Output(xs) = b0.effects@[j] {
                        }
                    }
                }
                if let Effect::Input(y) = self.effects@[j] {
                    assert(effect_below(b0.effects@[j], g0@.len()));
                }
            }
        }
    }
}


/// The block that precedes the `k`-th of the processed control-flow nodes
/// `p`, with `pred` preceding the first.
pub open spec fn pred_at(p: Seq<Cfg>, k: int, pred: Option<Block>) -> Option<Block> {
    if k == 0 {
        pred
    } else if p[k - 1] is Block {
        Some(p[k - 1]->Block_0)
    } else {
        None
    }
}

/// Whether the offsets of the copies in a graph with copy bound `bound`,
/// shifted by the offset of the predecessor `p`, fit in `i64`.
pub open spec fn pred_shift_fits(p: &Block, bound: int) -> bool {
    p.offset.0 + bound <= i64::MAX && i64::MIN <= p.offset.0 - bound - 1
}

/// Whether `c2` is the block `b1` with the constants that `pred` leaves
/// propagated into it, over a graph `nt` of its time whose copies fit when
/// shifted by the predecessor's offset; else `b1` itself.
pub open spec fn block_const_pass(c2: Cfg, b1: Block, pred: Option<Block>, nodes: Seq<Node>) -> bool {
    match pred {
        Some(p) => exists|nt: Seq<Node>, n2: Seq<Node>|
            #![trigger prefix(nt, n2), prefix(n2, nodes)]
            prefix(nt, n2) && prefix(n2, nodes) && if pred_shift_fits(&p, copy_bound_of(nt)) {
                c2 is Block && const_copied(&c2->Block_0, &b1, &p, n2, nt)
            } else {
                c2 == Cfg::Block(b1)
            },
        None => c2 == Cfg::Block(b1),
    }
}

/// The block pass relation stays when the graph grows.
proof fn lemma_block_const_pass_extend(c2: Cfg, b1: Block, pred: Option<Block>, n1: Seq<Node>, n2: Seq<Node>)
    requires
        block_const_pass(c2, b1, pred, n1),
        prefix(n1, n2),
    ensures
        block_const_pass(c2, b1, pred, n2),
{
    if let Some(p) = pred {
        let (nt, nm) = choose|nt: Seq<Node>, nm: Seq<Node>|
            #![trigger prefix(nt, nm), prefix(nm, n1)]
            prefix(nt, nm) && prefix(nm, n1) && if pred_shift_fits(&p, copy_bound_of(nt)) {
                c2 is Block && const_copied(&c2->Block_0, &b1, &p, nm, nt)
            } else {
                c2 == Cfg::Block(b1)
            };
        assert(n2.take(nm.len() as int) =~= n1.take(nm.len() as int));
        assert(prefix(nm, n2));
    }
}

/// Whether `c2` is `c1` with the constants that each block's predecessor
/// leaves propagated into it (`pred` precedes `c1`), sequences flattened
/// afterwards. A block whose offsets would overflow when shifted by those of
/// its predecessor is left as it is.
pub open spec fn copy_const_pass(c2: Cfg, c1: Cfg, pred: Option<Block>, nodes: Seq<Node>) -> bool
    decreases c1,
{
    match c1 {
        Cfg::Block(b1) => block_const_pass(c2, b1, pred, nodes),
        Cfg::Sequence(s) => exists|p: Seq<Cfg>|
            #![trigger p.len()]
            p.len() == s.cfgs@.len() && (forall|k: int|
                0 <= k < s.cfgs@.len() ==> copy_const_pass(p[k], #[trigger] s.cfgs@[k], pred_at(p, k, pred), nodes))
                && exists|q: Seq<Cfg>| folded(q, spliced(p), nodes, false) && unwrapped(c2, q),
        Cfg::Loop(body) => c2 is Loop && copy_const_pass(*c2->Loop_0, *body, None, nodes),
        Cfg::If(body) => c2 is If && copy_const_pass(*c2->If_0, *body, pred, nodes),
    }
}


/// The pass relation stays when the graph grows.
proof fn lemma_copy_const_pass_extend(c2: Cfg, c1: Cfg, pred: Option<Block>, n1: Seq<Node>, n2: Seq<Node>)
    requires
        copy_const_pass(c2, c1, pred, n1),
        prefix(n1, n2),
    ensures
        copy_const_pass(c2, c1, pred, n2),
    decreases c1,
{
    match c1 {
        Cfg::Block(b1) => {
            lemma_block_const_pass_extend(c2, b1, pred, n1, n2);
        },
        Cfg::Sequence(s) => {
            let p = choose|p: Seq<Cfg>|
                #![trigger p.len()]
                p.len() == s.cfgs@.len() && (forall|k: int|
                    0 <= k < s.cfgs@.len() ==> copy_const_pass(p[k], #[trigger] s.cfgs@[k], pred_at(p, k, pred), n1))
                    && exists|q: Seq<Cfg>| folded(q, spliced(p), n1, false) && unwrapped(c2, q);
            let q = choose|q: Seq<Cfg>| folded(q, spliced(p), n1, false) && unwrapped(c2, q);
            assert forall|k: int| 0 <= k < s.cfgs@.len() implies copy_const_pass(p[k], #[trigger] s.cfgs@[k], pred_at(p, k, pred), n2) by {
                lemma_copy_const_pass_extend(p[k], s.cfgs@[k], pred_at(p, k, pred), n1, n2);
            }
            lemma_folded_extend(q, spliced(p), n1, n2, false);
            assert(folded(q, spliced(p), n2, false) && unwrapped(c2, q));
        },
        Cfg::Loop(body) => {
            lemma_copy_const_pass_extend(*c2->Loop_0, *body, None, n1, n2);
        },
        Cfg::If(body) => {
            lemma_copy_const_pass_extend(*c2->If_0, *body, pred, n1, n2);
        },
    }
}

/// The block a reference refers to, if any.
pub open spec fn deref_block(pred: Option<&Block>) -> Option<Block> {
    match pred {
        Some(p) => Some(*p),
        None => None,
    }
}

impl Cfg {
    /// Replaces copies with their definition in the preceding block, if the
    /// definition is a constant.
    #[verifier::spinoff_prover]
    #[verifier::rlimit(100)]
    pub fn opt_copy_const(&mut self, pred: Option<&Block>, g: &mut Graph)
        requires
            old(g).wf(),
            cfg_below(*old(self), old(g)@.len()),
            pred matches Some(p) ==> p.nodes_below(old(g)@.len()),
        ensures
            final(g).wf(),
            final(g).extends(old(g)),
            final(g).spec_next_block() == old(g).spec_next_block(),
            final(g).spec_next_input() == old(g).spec_next_input(),
            cfg_below(*final(self), final(g)@.len()),
            copy_const_pass(*final(self), *old(self), deref_block(pred), final(g)@),
        decreases *old(self),
    {
        let ghost c0 = *self;
        let ghost g0 = *g;
        let mut cur = Cfg::empty();
        std::mem::swap(&mut cur, self);
        proof {
            g.lemma_extends_refl();
        }
        match cur {
            Cfg::Block(mut b) => {
                if let Some(p) = pred {
                    let bound = g.copy_bound();
                    if (p.offset.0 as i128) + (bound as i128) <= i64::MAX as i128 && (p.offset.0 as i128)
                        - (bound as i128) - 1 >= i64::MIN as i128 {
                        proof {
                            lemma_copies_shiftable(g, b.id, p.offset.0 as int);
                        }
                        let ghost b1 = b;
                        b.copy_const(p, g);
                        proof {
                            g.lemma_extends(&g0);
                            g0.lemma_copy_bound();
                            assert(prefix(g0@, g@));
                            assert(prefix(g@, g@)) by {
                                assert(g@.take(g@.len() as int) =~= g@);
                            }
                            let pp = *p;
                            assert(pred_shift_fits(&pp, copy_bound_of(g0@)));
                            assert(const_copied(&b, &b1, &pp, g@, g0@));
                            assert(block_const_pass(Cfg::Block(b), b1, Some(pp), g@));
                            lemma_nodes_below_mono(&b, g@.len(), g@.len());
                        }
                    } else {
                        proof {
                            g.lemma_copy_bound();
                            let pp = *p;
                            assert(!pred_shift_fits(&pp, copy_bound_of(g@)));
                            assert(prefix(g@, g@)) by {
                                assert(g@.take(g@.len() as int) =~= g@);
                            }
                            assert(block_const_pass(Cfg::Block(b), b, Some(pp), g@));
                        }
                    }
                }
                *self = Cfg::Block(b);
            },
            Cfg::Sequence(seq) => {
                let ghost items = seq.cfgs@;
                proof {
                    assert forall|j: int| 0 <= j < items.len() implies cfg_below(#[trigger] items[j], g0@.len()) by {
                        assert(cfg_below(seq.spec_cfgs()[j], g0@.len()));
                    }
                }
                let mut rest = seq.cfgs;
                let mut out: Vec<Cfg> = Vec::new();
                let n = rest.len();
                let mut k: usize = 0;
                while k < n
                    invariant
                        g0 == *old(g),
                        c0 == *old(self),
                        c0 == Cfg::Sequence(seq),
                        items == seq.cfgs@,
                        n == items.len(),
                        k <= n,
                        rest@.len() == n,
                        forall|j: int| k <= j < n ==> rest@[j] == items[j],
                        out@.len() == k,
                        g0.wf(),
                        g.wf(),
                        g.extends(&g0),
                        g.spec_next_block() == g0.spec_next_block(),
                        g.spec_next_input() == g0.spec_next_input(),
                        pred matches Some(p) ==> p.nodes_below(g0@.len()),
                        forall|j: int| 0 <= j < n ==> cfg_below(#[trigger] items[j], g0@.len()),
                        forall|j: int| 0 <= j < k ==> cfg_below(#[trigger] out@[j], g@.len()),
                        forall|j: int|
                            0 <= j < k ==> copy_const_pass(#[trigger] out@[j], items[j], pred_at(out@, j, deref_block(pred)), g@),
                    decreases n - k,
                {
                    let ghost gk = *g;
                    let mut item = Cfg::empty();
                    std::mem::swap(&mut item, &mut rest[k]);
                    proof {
                        assert(item == items[k as int]);
                        assert(decreases_to!(c0 => c0->Sequence_0));
                        assert(c0->Sequence_0 == seq);
                        assert(decreases_to!(seq => seq.cfgs));
                        assert(decreases_to!(seq.cfgs => seq.cfgs@));
                        assert(decreases_to!(seq.cfgs@ => seq.cfgs@[k as int]));
                        assert(decreases_to!(c0 => item));
                        g.lemma_extends(&g0);
                        assert(cfg_below(items[k as int], g0@.len()));
                        lemma_cfg_below_mono(item, g0@.len(), g@.len());
                        if let Some(p) = pred {
                            lemma_nodes_below_mono(p, g0@.len(), g@.len());
                        }
                    }
                    let pk: Option<&Block> = if k == 0 {
                        pred
                    } else {
                        match &out[k - 1] {
                            Cfg::Block(b) => Some(b),
                            _ => None,
                        }
                    };
                    proof {
                        assert(deref_block(pk) == pred_at(out@, k as int, deref_block(pred)));
                        if k > 0 {
                            assert(cfg_below(out@[k - 1], g@.len()));
                        }
                    }
                    item.opt_copy_const(pk, g);
                    proof {
                        Graph::lemma_extends_trans(&g0, &gk, g);
                        g.lemma_extends(&gk);
                        assert(prefix(gk@, g@));
                        assert forall|j: int| 0 <= j < k implies cfg_below(#[trigger] out@[j], g@.len())
                            && copy_const_pass(out@[j], items[j], pred_at(out@, j, deref_block(pred)), g@) by {
                            lemma_cfg_below_mono(out@[j], gk@.len(), g@.len());
                            lemma_copy_const_pass_extend(out@[j], items[j], pred_at(out@, j, deref_block(pred)), gk@, g@);
                        }
                    }
                    let ghost o0 = out@;
                    out.push(item);
                    proof {
                        assert forall|j: int| 0 <= j < k + 1 implies pred_at(out@, j, deref_block(pred)) == pred_at(o0.push(item), j, deref_block(pred)) by {}
                        assert forall|j: int| 0 <= j <= k implies #[trigger] pred_at(out@, j, deref_block(pred)) == (if j < k { pred_at(o0, j, deref_block(pred)) } else { pred_at(o0.push(item), j, deref_block(pred)) }) by {
                            if j > 0 && j <= k {
                                assert(out@[j - 1] == o0.push(item)[j - 1]);
                            }
                        }
                    }
                    k = k + 1;
                }
                let ghost p = out@;
                *self = Cfg::Sequence(Sequence { cfgs: out });
                proof {
                    assert forall|j: int| 0 <= j < p.len() implies cfg_below(#[trigger] self->Sequence_0.spec_cfgs()[j], g@.len()) by {
                        assert(self->Sequence_0.spec_cfgs()[j] == p[j]);
                    }
                }
                let ghost gs = *g;
                self.flatten(g);
                proof {
                    Graph::lemma_extends_trans(&g0, &gs, g);
                    g.lemma_extends(&gs);
                    assert(prefix(gs@, g@));
                    assert forall|j: int| 0 <= j < items.len() implies copy_const_pass(p[j], #[trigger] items[j], pred_at(p, j, deref_block(pred)), g@) by {
                        lemma_copy_const_pass_extend(p[j], items[j], pred_at(p, j, deref_block(pred)), gs@, g@);
                    }
                    let q = choose|q: Seq<Cfg>| folded(q, spliced(p), g@, false) && unwrapped(*self, q);
                    assert(p.len() == seq.cfgs@.len());
                    assert(copy_const_pass(*self, c0, deref_block(pred), g@));
                }
            },
            Cfg::Loop(body) => {
                let mut b = *body;
                b.opt_copy_const(None, g);
                *self = Cfg::Loop(Box::new(b));
            },
            Cfg::If(then) => {
                let mut t = *then;
                t.opt_copy_const(pred, g);
                *self = Cfg::If(Box::new(t));
            },
        }
    }
}

} // verus!
