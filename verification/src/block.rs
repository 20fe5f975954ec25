//! Basic blocks: the memory a block assigns and the effects it performs.

use vstd::prelude::*;
use std::collections::HashMap;

use crate::egraph::{children_below, copy_within, Graph, NodeId};
use crate::node::{
    eval, eval_node, lemma_eval_extend, lemma_eval_range, lemma_eval_wf, lemma_extends_value,
    same_id_value, same_value, ideal_insert, grown, operands_before, unique_nodes,
    lemma_after_insert_grown, lemma_after_insert_grows, lemma_after_insert_stable, lemma_grown_trans,
    lemma_grown_index, lemma_ideal_insert_grown, lemma_ideal_insert_grows, lemma_ideal_insert_stable,
    BlockId, InputId, Node, Offset,
};
use crate::egraph::after_insert;

verus! {

/// The memory and effects of a basic block.
#[derive(Clone, Debug, PartialEq, Eq)]
pub struct Block {
    /// The ID of this block, unique per e-graph.
    pub id: BlockId,
    /// The values modified in this memory, starting at `min_offset`.
    pub memory: Vec<Option<NodeId>>,
    /// The sequence of effects in this basic block.
    pub effects: Vec<Effect>,
    /// The relative offset of the cell pointer.
    pub offset: Offset,
    /// The relative offset of the first cell in `memory`.
    pub min_offset: Offset,
    /// The minimum offset left that has been guarded.
    pub guarded_left: Offset,
    /// The maximum offset right that has been guarded.
    pub guarded_right: Offset,
}

/// An observable effect.
#[derive(Clone, Debug, PartialEq, Eq)]
pub enum Effect {
    /// Printing bytes.
    Output(Vec<NodeId>),
    /// Reading a byte from the user. The node is always `Node::Input`.
    Input(NodeId),
    /// Guarding that a shift can be performed by a certain amount.
    GuardShift(Offset),
}

/// Whether the nodes an effect refers to are below `n`.
pub open spec fn effect_below(e: Effect, n: nat) -> bool {
    match e {
        Effect::Output(values) => forall|k: int| 0 <= k < values@.len() ==> (#[trigger] values@[k]).0 < n,
        Effect::Input(id) => id.0 < n,
        Effect::GuardShift(_) => true,
    }
}

/// Whether every node of every effect is below `n`.
pub open spec fn effects_below(effects: Seq<Effect>, n: nat) -> bool {
    forall|k: int| 0 <= k < effects.len() ==> effect_below(#[trigger] effects[k], n)
}

/// Whether every cell assigned in `memory` holds a node below `n`.
pub open spec fn memory_below(memory: Seq<Option<NodeId>>, n: nat) -> bool {
    forall|k: int| 0 <= k < memory.len() ==> (#[trigger] memory[k] matches Some(id) ==> id.0 < n)
}

/// Whether every `Copy` from block `from` among the first `bound` nodes can
/// be shifted by `delta` without leaving the range of `i64`.
pub open spec fn copies_shiftable(nodes: Seq<Node>, from: BlockId, delta: int, bound: int) -> bool {
    forall|i: int|
        0 <= i < bound && i < nodes.len() ==> match #[trigger] nodes[i] {
            Node::Copy(o, b) => b == from ==> i64::MIN <= delta + o.0 <= i64::MAX,
            _ => true,
        }
}

impl Block {
    /// The node assigned to the cell at `off`, if the block assigns it.
    pub open spec fn cell(&self, off: int) -> Option<NodeId> {
        let i = off - self.min_offset.0;
        if 0 <= i < self.memory@.len() {
            self.memory@[i]
        } else {
            None
        }
    }

    /// The nodes of the block are below `n`.
    pub open spec fn nodes_below(&self, n: nat) -> bool {
        &&& memory_below(self.memory@, n)
        &&& effects_below(self.effects@, n)
    }

    /// The offsets of the block's memory fit in `i64`.
    pub open spec fn fits(&self) -> bool {
        self.min_offset.0 + self.memory@.len() <= i64::MAX
    }

    /// The value of the cell at `off` after the block, when the cells before
    /// it hold `copy` and the inputs read are `input`.
    pub open spec fn cell_value(
        &self,
        nodes: Seq<Node>,
        off: int,
        copy: spec_fn(Offset, BlockId) -> u8,
        input: spec_fn(InputId) -> u8,
    ) -> int {
        match self.cell(off) {
            Some(c) => eval(nodes, c, copy, input),
            None => copy(Offset(off as i64), self.id) as int,
        }
    }
}

/// The cell values seen by nodes of block `from` once they are moved after
/// block `to`: their copies read what `to` leaves in the cells.
pub open spec fn moved_copy(
    from: BlockId,
    to: &Block,
    nodes: Seq<Node>,
    copy: spec_fn(Offset, BlockId) -> u8,
    input: spec_fn(InputId) -> u8,
) -> spec_fn(Offset, BlockId) -> u8 {
    |o: Offset, b: BlockId|
        if b == from {
            to.cell_value(nodes, to.offset.0 + o.0, copy, input) as u8
        } else {
            copy(o, b)
        }
}


impl Block {
    /// Constructs a new, empty basic block.
    pub fn new(id: BlockId) -> (b: Self)
        ensures
            b.id == id,
            b.memory@.len() == 0,
            b.effects@.len() == 0,
            b.offset == Offset(0),
            b.min_offset == Offset(0),
            b.guarded_left == Offset(0),
            b.guarded_right == Offset(0),
    {
        Block {
            id,
            memory: Vec::new(),
            effects: Vec::new(),
            offset: Offset(0),
            min_offset: Offset(0),
            guarded_left: Offset(0),
            guarded_right: Offset(0),
        }
    }

    /// Gets the value of the cell at the offset.
    pub fn get_cell(&self, offset: Offset) -> (r: Option<NodeId>)
        ensures
            r == self.cell(offset.0 as int),
    {
        if offset.0 < self.min_offset.0 {
            return None;
        }
        let d: i128 = offset.0 as i128 - self.min_offset.0 as i128;
        if d < self.memory.len() as i128 {
            self.memory[d as usize]
        } else {
            None
        }
    }

    /// The maximum offset, which has a modified value in this basic block.
    pub fn max_offset(&self) -> (m: Offset)
        requires
            self.fits(),
        ensures
            m.0 == self.min_offset.0 + self.memory@.len(),
    {
        let m: i128 = self.min_offset.0 as i128 + self.memory.len() as i128;
        Offset(m as i64)
    }
}

/// Moving a copy or an input with the same graph keeps the value of a leaf.
proof fn lemma_moved_copy_extends(
    g1: &Graph,
    g2: &Graph,
    from: BlockId,
    to: &Block,
    copy: spec_fn(Offset, BlockId) -> u8,
    input: spec_fn(InputId) -> u8,
)
    requires
        g2.extends(g1),
        memory_below(to.memory@, g1@.len()),
    ensures
        moved_copy(from, to, g2@, copy, input) == moved_copy(from, to, g1@, copy, input),
{
    g2.lemma_extends(g1);
    assert forall|o: Offset, b: BlockId|
        #[trigger] moved_copy(from, to, g2@, copy, input)(o, b) == moved_copy(from, to, g1@, copy, input)(o, b) by {
        if b == from {
            let off = to.offset.0 + o.0;
            match to.cell(off) {
                Some(c) => {
                    assert(to.memory@[off - to.min_offset.0] == Some(c));
                    lemma_eval_extend(g1@, g2@, c, copy, input);
                },
                None => {},
            }
        }
    }
    assert(moved_copy(from, to, g2@, copy, input) =~= moved_copy(from, to, g1@, copy, input));
}

/// The nodes and ID that moving node `x` of `nodes` from block `from` to
/// block `to` gives: a copy from `from` becomes the cell of `to` at the
/// shifted offset, or a copy of that offset from `to` when the cell is not
/// set; a sum or product is rebuilt by inserting it, in its ideal
/// representation, over its moved operands; anything else stays.
pub open spec fn moved_node(nodes: Seq<Node>, x: NodeId, from: BlockId, to: Block) -> (Seq<Node>, NodeId)
    decreases x.0,
{
    if x.0 < nodes.len() {
        match nodes[x.0 as int] {
            Node::Copy(o, b) => if b == from {
                match to.cell(to.offset.0 + o.0) {
                    Some(c) => (nodes, c),
                    None => after_insert(nodes, Node::Copy(Offset((to.offset.0 + o.0) as i64), to.id)),
                }
            } else {
                (nodes, x)
            },
            Node::Add(a, b) => if a.0 < x.0 && b.0 < x.0 {
                let (n1, la) = moved_node(nodes, a, from, to);
                let (n2, lb) = moved_node(n1, b, from, to);
                ideal_insert(n2, Node::Add(la, lb))
            } else {
                (nodes, x)
            },
            Node::Mul(a, b) => if a.0 < x.0 && b.0 < x.0 {
                let (n1, la) = moved_node(nodes, a, from, to);
                let (n2, lb) = moved_node(n1, b, from, to);
                ideal_insert(n2, Node::Mul(la, lb))
            } else {
                (nodes, x)
            },
            _ => (nodes, x),
        }
    } else {
        (nodes, x)
    }
}

/// The nodes of a well-formed graph come after their operands, occur once,
/// and are counted by a `usize`.
pub proof fn lemma_graph_nodes(g: &Graph)
    requires
        g.wf(),
    ensures
        operands_before(g@),
        unique_nodes(g@),
        g@.len() <= usize::MAX,
{
    g.lemma_wf_nodes();
    assert forall|i: int, j: int| 0 <= i < j < g@.len() implies #[trigger] g@[i] != #[trigger] g@[j] by {
        if g@[i] == g@[j] {
            g.lemma_node_ids_unique(NodeId(i as usize), NodeId(j as usize));
        }
    }
}

/// Moving a node grows the nodes.
pub proof fn lemma_moved_node_grown(n: Seq<Node>, x: NodeId, from: BlockId, to: Block)
    ensures
        grown(n, moved_node(n, x, from, to).0),
    decreases x.0,
{
    let out = moved_node(n, x, from, to);
    assert(n.take(n.len() as int) =~= n);
    if x.0 < n.len() {
        match n[x.0 as int] {
            Node::Copy(o, b) => {
                if b == from && to.cell(to.offset.0 + o.0) is None {
                    lemma_after_insert_grown(n, Node::Copy(Offset((to.offset.0 + o.0) as i64), to.id));
                }
            },
            Node::Add(a, b) | Node::Mul(a, b) => {
                if a.0 < x.0 && b.0 < x.0 {
                    let p1 = moved_node(n, a, from, to);
                    let p2 = moved_node(p1.0, b, from, to);
                    lemma_moved_node_grown(n, a, from, to);
                    lemma_moved_node_grown(p1.0, b, from, to);
                    lemma_ideal_insert_grown(p2.0, if n[x.0 as int] is Add { Node::Add(p1.1, p2.1) } else { Node::Mul(p1.1, p2.1) });
                    lemma_grown_trans(n, p1.0, p2.0);
                    lemma_grown_trans(n, p2.0, out.0);
                }
            },
            _ => {},
        }
    }
}

/// Moving a node keeps operands before their nodes and gives an ID in range.
pub proof fn lemma_moved_node_grows(n: Seq<Node>, x: NodeId, from: BlockId, to: Block)
    requires
        operands_before(n),
        x.0 < n.len(),
        memory_below(to.memory@, n.len()),
        moved_node(n, x, from, to).0.len() <= usize::MAX,
    ensures
        moved_node(n, x, from, to).1.0 < moved_node(n, x, from, to).0.len(),
        operands_before(moved_node(n, x, from, to).0),
    decreases x.0,
{
    let out = moved_node(n, x, from, to);
    lemma_moved_node_grown(n, x, from, to);
    assert(children_below(n[x.0 as int], x.0 as int));
    match n[x.0 as int] {
        Node::Copy(o, b) => {
            if b == from {
                let off = to.offset.0 + o.0;
                if let Some(c) = to.cell(off) {
                    assert(to.memory@[off - to.min_offset.0] == Some(c));
                } else {
                    lemma_after_insert_grows(n, Node::Copy(Offset((to.offset.0 + o.0) as i64), to.id));
                }
            }
        },
        Node::Add(a, b) | Node::Mul(a, b) => {
            let p1 = moved_node(n, a, from, to);
            let p2 = moved_node(p1.0, b, from, to);
            let node = if n[x.0 as int] is Add { Node::Add(p1.1, p2.1) } else { Node::Mul(p1.1, p2.1) };
            lemma_moved_node_grown(n, a, from, to);
            lemma_moved_node_grown(p1.0, b, from, to);
            lemma_ideal_insert_grown(p2.0, node);
            lemma_grown_trans(p1.0, p2.0, out.0);
            lemma_moved_node_grows(n, a, from, to);
            assert(memory_below(to.memory@, p1.0.len())) by {
                assert forall|k: int| 0 <= k < to.memory@.len() implies (#[trigger] to.memory@[k] matches Some(id) ==> id.0 < p1.0.len()) by {}
            }
            lemma_grown_index(n, p1.0, b.0 as int);
            lemma_moved_node_grows(p1.0, b, from, to);
            lemma_ideal_insert_grows(p2.0, node);
        },
        _ => {},
    }
}

/// Moving a node again, in a duplicate-free sequence `m` that holds what the
/// first move gave, leaves `m` and gives the same ID.
pub proof fn lemma_moved_node_stable(n: Seq<Node>, x: NodeId, from: BlockId, to: Block, m: Seq<Node>)
    requires
        operands_before(n),
        x.0 < n.len(),
        memory_below(to.memory@, n.len()),
        grown(moved_node(n, x, from, to).0, m),
        unique_nodes(m),
        m.len() <= usize::MAX,
    ensures
        moved_node(m, x, from, to) == (m, moved_node(n, x, from, to).1),
    decreases x.0,
{
    let out = moved_node(n, x, from, to);
    lemma_moved_node_grown(n, x, from, to);
    lemma_grown_trans(n, out.0, m);
    lemma_grown_index(n, m, x.0 as int);
    assert(children_below(n[x.0 as int], x.0 as int));
    match n[x.0 as int] {
        Node::Copy(o, b) => {
            if b == from {
                if to.cell(to.offset.0 + o.0) is None {
                    lemma_after_insert_stable(n, Node::Copy(Offset((to.offset.0 + o.0) as i64), to.id), m);
                }
            }
        },
        Node::Add(a, b) | Node::Mul(a, b) => {
            let p1 = moved_node(n, a, from, to);
            let p2 = moved_node(p1.0, b, from, to);
            let node = if n[x.0 as int] is Add { Node::Add(p1.1, p2.1) } else { Node::Mul(p1.1, p2.1) };
            lemma_moved_node_grown(n, a, from, to);
            lemma_moved_node_grown(p1.0, b, from, to);
            lemma_ideal_insert_grown(p2.0, node);
            lemma_grown_trans(p2.0, out.0, m);
            lemma_grown_trans(p1.0, p2.0, m);
            lemma_moved_node_grows(n, a, from, to);
            assert(memory_below(to.memory@, p1.0.len())) by {
                assert forall|k: int| 0 <= k < to.memory@.len() implies (#[trigger] to.memory@[k] matches Some(id) ==> id.0 < p1.0.len()) by {}
            }
            lemma_grown_index(n, p1.0, b.0 as int);
            lemma_moved_node_grows(p1.0, b, from, to);
            lemma_moved_node_stable(n, a, from, to, m);
            lemma_moved_node_stable(p1.0, b, from, to, m);
            lemma_ideal_insert_stable(p2.0, node, m);
        },
        _ => {},
    }
}

/// Moving to blocks with the same ID, pointer and cells gives the same.
pub proof fn lemma_moved_node_same_block(n: Seq<Node>, x: NodeId, from: BlockId, t1: Block, t2: Block)
    requires
        t1.id == t2.id,
        t1.offset == t2.offset,
        forall|off: int| #[trigger] t1.cell(off) == t2.cell(off),
    ensures
        moved_node(n, x, from, t1) == moved_node(n, x, from, t2),
    decreases x.0,
{
    if x.0 < n.len() {
        match n[x.0 as int] {
            Node::Copy(o, b) => {
                assert(t1.cell(t1.offset.0 + o.0) == t2.cell(t2.offset.0 + o.0));
            },
            Node::Add(a, b) | Node::Mul(a, b) => {
                if a.0 < x.0 && b.0 < x.0 {
                    let p1 = moved_node(n, a, from, t1);
                    lemma_moved_node_same_block(n, a, from, t1, t2);
                    lemma_moved_node_same_block(p1.0, b, from, t1, t2);
                }
            },
            _ => {},
        }
    }
}

impl NodeId {
    /// Makes a copy of this node, but with its copies be relative to the given
    /// block.
    pub fn move_to_block(self, block_from: BlockId, block_to: &Block, g: &mut Graph) -> (r: NodeId)
        requires
            old(g).wf(),
            (self.0 as int) < old(g)@.len(),
            memory_below(block_to.memory@, old(g)@.len()),
            copies_shiftable(old(g)@, block_from, block_to.offset.0 as int, self.0 + 1),
        ensures
            final(g).wf(),
            final(g).extends(old(g)),
            final(g).spec_next_block() == old(g).spec_next_block(),
            final(g).spec_next_input() == old(g).spec_next_input(),
            (r.0 as int) < final(g)@.len(),
            forall|copy: spec_fn(Offset, BlockId) -> u8, input: spec_fn(InputId) -> u8|
                #[trigger] eval(final(g)@, r, copy, input) == eval(
                    old(g)@,
                    self,
                    moved_copy(block_from, block_to, old(g)@, copy, input),
                    input,
                ),
            match old(g)@[self.0 as int] {
                Node::Copy(o, b) => if b == block_from {
                    match block_to.cell(block_to.offset.0 + o.0) {
                        Some(c) => r == c,
                        None => final(g)@[r.0 as int] == Node::Copy(
                            Offset((block_to.offset.0 + o.0) as i64),
                            block_to.id,
                        ),
                    }
                } else {
                    r == self
                },
                Node::Const(_) | Node::Input(_) => r == self,
                _ => true,
            },
            (final(g)@, r) == moved_node(old(g)@, self, block_from, *block_to),
        decreases self.0,
    {
        let ghost g0 = *g;
        proof {
            g.lemma_wf_nodes();
            g.lemma_extends_refl();
        }
        let node = *g.index(self);
        match node {
            Node::Copy(offset, block) => {
                if block == block_from {
                    assert(g@[self.0 as int] == node);
                    let off = Offset(block_to.offset.0 + offset.0);
                    match block_to.get_cell(off) {
                        Some(c) => {
                            proof {
                                assert(block_to.memory@[off.0 - block_to.min_offset.0] == Some(c));
                                assert forall|copy: spec_fn(Offset, BlockId) -> u8, input: spec_fn(InputId) -> u8|
                                    #[trigger] eval(g@, c, copy, input) == eval(
                                        g0@,
                                        self,
                                        moved_copy(block_from, block_to, g0@, copy, input),
                                        input,
                                    ) by {
                                    lemma_eval_range(g0@, c, copy, input);
                                }
                            }
                            c
                        },
                        None => Node::Copy(off, block_to.id).insert_ideal(g),
                    }
                } else {
                    self
                }
            },
            Node::Const(_) | Node::Input(_) => self,
            Node::Add(lhs, rhs) => {
                let l = lhs.move_to_block(block_from, block_to, g);
                let ghost g1 = *g;
                proof {
                    g.lemma_extends(&g0);
                    assert(children_below(g0@[self.0 as int], self.0 as int));
                    assert forall|i: int| 0 <= i < rhs.0 + 1 implies g@[i] == g0@[i] by {
                        assert(g@.take(g0@.len() as int)[i] == g0@[i]);
                    }
                    assert(copies_shiftable(g@, block_from, block_to.offset.0 as int, rhs.0 + 1)) by {
                        assert forall|i: int| 0 <= i < rhs.0 + 1 && i < g@.len() implies match #[trigger] g@[i] {
                            Node::Copy(o, b) => b == block_from ==> i64::MIN <= block_to.offset.0 + o.0 <= i64::MAX,
                            _ => true,
                        } by {
                            assert(g@[i] == g0@[i]);
                        }
                    }
                }
                let r = rhs.move_to_block(block_from, block_to, g);
                let ghost g2 = *g;
                proof {
                    Graph::lemma_extends_trans(&g0, &g1, &g2);
                    g2.lemma_extends(&g1);
                }
                let id = Node::Add(l, r).insert(g);
                proof {
                    Graph::lemma_extends_trans(&g0, &g2, g);
                    assert forall|copy: spec_fn(Offset, BlockId) -> u8, input: spec_fn(InputId) -> u8|
                        #[trigger] eval(g@, id, copy, input) == eval(
                            g0@,
                            self,
                            moved_copy(block_from, block_to, g0@, copy, input),
                            input,
                        ) by {
                        let m = moved_copy(block_from, block_to, g0@, copy, input);
                        lemma_moved_copy_extends(&g0, &g1, block_from, block_to, copy, input);
                        lemma_eval_extend(g1@, g2@, l, copy, input);
                        lemma_eval_extend(g0@, g1@, rhs, m, input);
                        lemma_eval_wf(&g0, self, m, input);
                    }
                }
                id
            },
            Node::Mul(lhs, rhs) => {
                let l = lhs.move_to_block(block_from, block_to, g);
                let ghost g1 = *g;
                proof {
                    g.lemma_extends(&g0);
                    assert(children_below(g0@[self.0 as int], self.0 as int));
                    assert forall|i: int| 0 <= i < rhs.0 + 1 implies g@[i] == g0@[i] by {
                        assert(g@.take(g0@.len() as int)[i] == g0@[i]);
                    }
                    assert(copies_shiftable(g@, block_from, block_to.offset.0 as int, rhs.0 + 1)) by {
                        assert forall|i: int| 0 <= i < rhs.0 + 1 && i < g@.len() implies match #[trigger] g@[i] {
                            Node::Copy(o, b) => b == block_from ==> i64::MIN <= block_to.offset.0 + o.0 <= i64::MAX,
                            _ => true,
                        } by {
                            assert(g@[i] == g0@[i]);
                        }
                    }
                }
                let r = rhs.move_to_block(block_from, block_to, g);
                let ghost g2 = *g;
                proof {
                    Graph::lemma_extends_trans(&g0, &g1, &g2);
                    g2.lemma_extends(&g1);
                }
                let id = Node::Mul(l, r).insert(g);
                proof {
                    Graph::lemma_extends_trans(&g0, &g2, g);
                    assert forall|copy: spec_fn(Offset, BlockId) -> u8, input: spec_fn(InputId) -> u8|
                        #[trigger] eval(g@, id, copy, input) == eval(
                            g0@,
                            self,
                            moved_copy(block_from, block_to, g0@, copy, input),
                            input,
                        ) by {
                        let m = moved_copy(block_from, block_to, g0@, copy, input);
                        lemma_moved_copy_extends(&g0, &g1, block_from, block_to, copy, input);
                        lemma_eval_extend(g1@, g2@, l, copy, input);
                        lemma_eval_extend(g0@, g1@, rhs, m, input);
                        lemma_eval_wf(&g0, self, m, input);
                    }
                }
                id
            },
        }
    }
}


/// Whether node `r` of `nodes2` computes what node `x` of `nodes0` computes
/// once it is moved from block `from` to after block `to`.
pub open spec fn moved_value(
    nodes2: Seq<Node>,
    r: NodeId,
    nodes0: Seq<Node>,
    x: NodeId,
    from: BlockId,
    to: &Block,
) -> bool {
    forall|copy: spec_fn(Offset, BlockId) -> u8, input: spec_fn(InputId) -> u8|
        #[trigger] eval(nodes2, r, copy, input) == eval(
            nodes0,
            x,
            moved_copy(from, to, nodes0, copy, input),
            input,
        )
}

/// A moved value stays moved when the graph grows.
proof fn lemma_moved_value_extend(
    g2: &Graph,
    g3: &Graph,
    r: NodeId,
    nodes0: Seq<Node>,
    x: NodeId,
    from: BlockId,
    to: &Block,
)
    requires
        g3.extends(g2),
        r.0 < g2@.len(),
        moved_value(g2@, r, nodes0, x, from, to),
    ensures
        moved_value(g3@, r, nodes0, x, from, to),
{
    g3.lemma_extends(g2);
    assert forall|copy: spec_fn(Offset, BlockId) -> u8, input: spec_fn(InputId) -> u8|
        #[trigger] eval(g3@, r, copy, input) == eval(
            nodes0,
            x,
            moved_copy(from, to, nodes0, copy, input),
            input,
        ) by {
        lemma_eval_extend(g2@, g3@, r, copy, input);
    }
}

/// An event that a block makes observable, in order.
pub enum IoEvent {
    /// A byte is printed.
    Output(NodeId),
    /// A byte is read into the node.
    Input(NodeId),
}

/// The I/O events of one effect.
pub open spec fn effect_io(e: Effect) -> Seq<IoEvent> {
    match e {
        Effect::Output(values) => values@.map_values(|v: NodeId| IoEvent::Output(v)),
        Effect::Input(id) => seq![IoEvent::Input(id)],
        Effect::GuardShift(_) => Seq::empty(),
    }
}

/// The I/O events of a sequence of effects.
pub open spec fn io_events(effects: Seq<Effect>) -> Seq<IoEvent>
    decreases effects.len(),
{
    if effects.len() == 0 {
        Seq::empty()
    } else {
        io_events(effects.drop_last()) + effect_io(effects.last())
    }
}

/// The offsets guarded by a sequence of effects.
pub open spec fn guards(effects: Seq<Effect>) -> Seq<int>
    decreases effects.len(),
{
    if effects.len() == 0 {
        Seq::empty()
    } else {
        match effects.last() {
            Effect::GuardShift(o) => guards(effects.drop_last()).push(o.0 as int),
            _ => guards(effects.drop_last()),
        }
    }
}

/// Guarding the offsets `offs` in turn, starting from the guarded range
/// `left..=right`: the guards that widen the range, and the range after them.
pub open spec fn widening_guards(left: int, right: int, offs: Seq<int>) -> (Seq<int>, int, int)
    decreases offs.len(),
{
    if offs.len() == 0 {
        (Seq::empty(), left, right)
    } else {
        let (kept, l, r) = widening_guards(left, right, offs.drop_last());
        let o = offs.last();
        if o < l {
            (kept.push(o), o, r)
        } else if o > r {
            (kept.push(o), l, o)
        } else {
            (kept, l, r)
        }
    }
}

/// Shifts each offset by `delta`.
pub open spec fn shifted(offs: Seq<int>, delta: int) -> Seq<int> {
    offs.map_values(|o: int| o + delta)
}

/// Whether the I/O events `e2` of the concatenation are the events `e1` of
/// block `from`, with their values moved to after block `to`.
pub open spec fn moved_events(
    nodes2: Seq<Node>,
    e2: Seq<IoEvent>,
    nodes0: Seq<Node>,
    e1: Seq<IoEvent>,
    from: BlockId,
    to: &Block,
) -> bool {
    &&& e2.len() == e1.len()
    &&& forall|k: int|
        0 <= k < e1.len() ==> match (#[trigger] e1[k], e2[k]) {
            (IoEvent::Output(x), IoEvent::Output(r)) => moved_value(nodes2, r, nodes0, x, from, to),
            (IoEvent::Input(x), IoEvent::Input(r)) => r == x,
            _ => false,
        }
}


/// A value moved over a later graph is also moved over an earlier one, when
/// the node and the target block's cells were already in the earlier graph.
proof fn lemma_moved_value_rebase(
    g0: &Graph,
    gk: &Graph,
    nodes2: Seq<Node>,
    r: NodeId,
    x: NodeId,
    from: BlockId,
    to: &Block,
)
    requires
        gk.extends(g0),
        x.0 < g0@.len(),
        memory_below(to.memory@, g0@.len()),
        moved_value(nodes2, r, gk@, x, from, to),
    ensures
        moved_value(nodes2, r, g0@, x, from, to),
{
    gk.lemma_extends(g0);
    assert forall|copy: spec_fn(Offset, BlockId) -> u8, input: spec_fn(InputId) -> u8|
        #[trigger] eval(nodes2, r, copy, input) == eval(
            g0@,
            x,
            moved_copy(from, to, g0@, copy, input),
            input,
        ) by {
        lemma_moved_copy_extends(g0, gk, from, to, copy, input);
        lemma_eval_extend(g0@, gk@, x, moved_copy(from, to, g0@, copy, input), input);
    }
}

/// Shiftable copies stay shiftable when the graph grows.
pub proof fn lemma_shiftable_extend(g0: &Graph, g1: &Graph, from: BlockId, delta: int, bound: int)
    requires
        g1.extends(g0),
        bound <= g0@.len(),
        copies_shiftable(g0@, from, delta, bound),
    ensures
        copies_shiftable(g1@, from, delta, bound),
{
    g1.lemma_extends(g0);
    assert forall|i: int| 0 <= i < bound && i < g1@.len() implies match #[trigger] g1@[i] {
        Node::Copy(o, b) => b == from ==> i64::MIN <= delta + o.0 <= i64::MAX,
        _ => true,
    } by {
        assert(g1@.take(g0@.len() as int)[i] == g0@[i]);
    }
}

/// Shiftable copies below a bound are shiftable below a smaller bound.
pub proof fn lemma_shiftable_mono(nodes: Seq<Node>, from: BlockId, delta: int, b1: int, b2: int)
    requires
        b1 <= b2,
        copies_shiftable(nodes, from, delta, b2),
    ensures
        copies_shiftable(nodes, from, delta, b1),
{
    assert forall|i: int| 0 <= i < b1 && i < nodes.len() implies match #[trigger] nodes[i] {
        Node::Copy(o, b) => b == from ==> i64::MIN <= delta + o.0 <= i64::MAX,
        _ => true,
    } by {
        assert(0 <= i < b2);
    }
}

/// Moves each value of an output to after block `to`.
fn move_values(
    values: &Vec<NodeId>,
    from: BlockId,
    to: &Block,
    g: &mut Graph,
    Ghost(bound): Ghost<nat>,
) -> (out: Vec<NodeId>)
    requires
        old(g).wf(),
        bound <= old(g)@.len(),
        forall|k: int| 0 <= k < values@.len() ==> (#[trigger] values@[k]).0 < bound,
        memory_below(to.memory@, old(g)@.len()),
        copies_shiftable(old(g)@, from, to.offset.0 as int, bound as int),
    ensures
        final(g).wf(),
        final(g).extends(old(g)),
        final(g).spec_next_block() == old(g).spec_next_block(),
        final(g).spec_next_input() == old(g).spec_next_input(),
        out@.len() == values@.len(),
        forall|k: int|
            0 <= k < values@.len() ==> (#[trigger] out@[k]).0 < final(g)@.len() && moved_value(
                final(g)@,
                out@[k],
                old(g)@,
                values@[k],
                from,
                to,
            ),
{
    let ghost g0 = *g;
    proof {
        g.lemma_extends_refl();
    }
    let mut out: Vec<NodeId> = Vec::new();
    let mut k: usize = 0;
    while k < values.len()
        invariant
            g0.wf(),
            g.wf(),
            g.extends(&g0),
            g.spec_next_block() == g0.spec_next_block(),
            g.spec_next_input() == g0.spec_next_input(),
            k <= values@.len(),
            out@.len() == k,
            bound <= g0@.len(),
            forall|j: int| 0 <= j < values@.len() ==> (#[trigger] values@[j]).0 < bound,
            memory_below(to.memory@, g0@.len()),
            copies_shiftable(g0@, from, to.offset.0 as int, bound as int),
            forall|j: int|
                0 <= j < k ==> (#[trigger] out@[j]).0 < g@.len() && moved_value(
                    g@,
                    out@[j],
                    g0@,
                    values@[j],
                    from,
                    to,
                ),
        decreases values@.len() - k,
    {
        let ghost gk = *g;
        proof {
            g.lemma_extends(&g0);
            lemma_shiftable_mono(g0@, from, to.offset.0 as int, values@[k as int].0 + 1, bound as int);
            lemma_shiftable_extend(&g0, g, from, to.offset.0 as int, values@[k as int].0 + 1);
        }
        let r = values[k].move_to_block(from, to, g);
        proof {
            g.lemma_extends(&gk);
            Graph::lemma_extends_trans(&g0, &gk, g);
            lemma_moved_value_rebase(&g0, &gk, g@, r, values@[k as int], from, to);
            assert forall|j: int| 0 <= j < k implies (#[trigger] out@[j]).0 < g@.len() && moved_value(
                g@,
                out@[j],
                g0@,
                values@[j],
                from,
                to,
            ) by {
                lemma_moved_value_extend(&gk, g, out@[j], g0@, values@[j], from, to);
            }
        }
        out.push(r);
        k = k + 1;
    }
    out
}

/// Moves each assigned cell of a memory to after block `to`.
fn move_memory(
    memory: &Vec<Option<NodeId>>,
    from: BlockId,
    to: &Block,
    g: &mut Graph,
    Ghost(bound): Ghost<nat>,
) -> (out: Vec<Option<NodeId>>)
    requires
        old(g).wf(),
        bound <= old(g)@.len(),
        memory_below(memory@, bound),
        memory_below(to.memory@, old(g)@.len()),
        copies_shiftable(old(g)@, from, to.offset.0 as int, bound as int),
    ensures
        final(g).wf(),
        final(g).extends(old(g)),
        final(g).spec_next_block() == old(g).spec_next_block(),
        final(g).spec_next_input() == old(g).spec_next_input(),
        out@.len() == memory@.len(),
        forall|k: int|
            0 <= k < memory@.len() ==> match (#[trigger] memory@[k], out@[k]) {
                (Some(x), Some(r)) => r.0 < final(g)@.len() && moved_value(final(g)@, r, old(g)@, x, from, to)
                    && moved_node(final(g)@, x, from, *to) == (final(g)@, r),
                (None, None) => true,
                _ => false,
            },
{
    let ghost g0 = *g;
    proof {
        g.lemma_extends_refl();
    }
    let mut out: Vec<Option<NodeId>> = Vec::new();
    let mut k: usize = 0;
    while k < memory.len()
        invariant
            g0.wf(),
            g.wf(),
            g.extends(&g0),
            g.spec_next_block() == g0.spec_next_block(),
            g.spec_next_input() == g0.spec_next_input(),
            k <= memory@.len(),
            out@.len() == k,
            bound <= g0@.len(),
            memory_below(memory@, bound),
            memory_below(to.memory@, g0@.len()),
            copies_shiftable(g0@, from, to.offset.0 as int, bound as int),
            forall|j: int|
                0 <= j < k ==> match (#[trigger] memory@[j], out@[j]) {
                    (Some(x), Some(r)) => r.0 < g@.len() && moved_value(g@, r, g0@, x, from, to)
                        && moved_node(g@, x, from, *to) == (g@, r),
                    (None, None) => true,
                    _ => false,
                },
        decreases memory@.len() - k,
    {
        match memory[k] {
            Some(x) => {
                let ghost gk = *g;
                proof {
                    g.lemma_extends(&g0);
                    assert(memory@[k as int] matches Some(y) && y.0 < bound);
                    lemma_shiftable_mono(g0@, from, to.offset.0 as int, x.0 + 1, bound as int);
                    lemma_shiftable_extend(&g0, g, from, to.offset.0 as int, x.0 + 1);
                }
                let r = x.move_to_block(from, to, g);
                proof {
                    g.lemma_extends(&gk);
                    Graph::lemma_extends_trans(&g0, &gk, g);
                    lemma_moved_value_rebase(&g0, &gk, g@, r, x, from, to);
                    lemma_graph_nodes(&gk);
                    lemma_graph_nodes(g);
                    assert(g@.take(g@.len() as int) =~= g@);
                    assert(memory_below(to.memory@, gk@.len())) by {
                        assert forall|q: int| 0 <= q < to.memory@.len() implies (#[trigger] to.memory@[q] matches Some(id) ==> id.0 < gk@.len()) by {}
                    }
                    lemma_moved_node_stable(gk@, x, from, *to, g@);
                    assert forall|j: int| 0 <= j < k implies match (#[trigger] memory@[j], out@[j]) {
                        (Some(x), Some(r)) => r.0 < g@.len() && moved_value(g@, r, g0@, x, from, to)
                            && moved_node(g@, x, from, *to) == (g@, r),
                        (None, None) => true,
                        _ => false,
                    } by {
                        if let (Some(y), Some(q)) = (memory@[j], out@[j]) {
                            lemma_moved_value_extend(&gk, g, q, g0@, y, from, to);
                            lemma_moved_node_stable(gk@, y, from, *to, g@);
                        }
                    }
                }
                out.push(Some(r));
            },
            None => {
                out.push(None);
            },
        }
        k = k + 1;
    }
    out
}


/// The I/O events and guards of a sequence with one more effect.
pub proof fn lemma_events_push(s: Seq<Effect>, e: Effect)
    ensures
        io_events(s.push(e)) == io_events(s) + effect_io(e),
        guards(s.push(e)) == (match e {
            Effect::GuardShift(o) => guards(s).push(o.0 as int),
            _ => guards(s),
        }),
{
    assert(s.push(e).drop_last() =~= s);
}

/// Moving the cells of a block with the same cells, offset and ID gives the
/// same values.
proof fn lemma_moved_same_block(
    nodes2: Seq<Node>,
    r: NodeId,
    nodes0: Seq<Node>,
    x: NodeId,
    from: BlockId,
    t1: &Block,
    t2: &Block,
)
    requires
        t1.id == t2.id,
        t1.offset == t2.offset,
        t1.min_offset == t2.min_offset,
        t1.memory@ == t2.memory@,
        moved_value(nodes2, r, nodes0, x, from, t1),
    ensures
        moved_value(nodes2, r, nodes0, x, from, t2),
{
    assert forall|copy: spec_fn(Offset, BlockId) -> u8, input: spec_fn(InputId) -> u8|
        #[trigger] eval(nodes2, r, copy, input) == eval(
            nodes0,
            x,
            moved_copy(from, t2, nodes0, copy, input),
            input,
        ) by {
        assert(moved_copy(from, t1, nodes0, copy, input) =~= moved_copy(from, t2, nodes0, copy, input));
    }
}

impl Block {
    /// The range of offsets that the memory covers once it also covers
    /// `min..max`.
    pub open spec fn reserved_range(&self, min: int, max: int) -> (int, int) {
        if self.memory@.len() == 0 {
            (min, max)
        } else {
            (
                if min < self.min_offset.0 { min } else { self.min_offset.0 as int },
                if max > self.min_offset.0 + self.memory@.len() {
                    max
                } else {
                    self.min_offset.0 + self.memory@.len()
                },
            )
        }
    }

    /// Reserves slots for cells in the range `min_offset..max_offset` and fills
    /// them with `None`.
    fn reserve(&mut self, min_offset: Offset, max_offset: Offset)
        requires
            old(self).fits(),
            min_offset.0 <= max_offset.0,
            old(self).reserved_range(min_offset.0 as int, max_offset.0 as int).1 - old(
                self,
            ).reserved_range(min_offset.0 as int, max_offset.0 as int).0 <= usize::MAX,
        ensures
            final(self).min_offset.0 == old(self).reserved_range(min_offset.0 as int, max_offset.0 as int).0,
            final(self).min_offset.0 + final(self).memory@.len() == old(self).reserved_range(
                min_offset.0 as int,
                max_offset.0 as int,
            ).1,
            forall|off: int| #[trigger] final(self).cell(off) == old(self).cell(off),
            final(self).fits(),
            final(self).id == old(self).id,
            final(self).effects == old(self).effects,
            final(self).offset == old(self).offset,
            final(self).guarded_left == old(self).guarded_left,
            final(self).guarded_right == old(self).guarded_right,
    {
        let empty = self.memory.len() == 0;
        let (lo, hi) = if empty {
            (min_offset.0, max_offset.0)
        } else {
            let m = self.max_offset();
            (
                if min_offset.0 < self.min_offset.0 { min_offset.0 } else { self.min_offset.0 },
                if max_offset.0 > m.0 { max_offset.0 } else { m.0 },
            )
        };
        let len: usize = (hi as i128 - lo as i128) as usize;
        let pad: usize = if empty { 0 } else { (self.min_offset.0 as i128 - lo as i128) as usize };
        let mut memory: Vec<Option<NodeId>> = Vec::new();
        while memory.len() < pad
            invariant
                memory@.len() <= pad,
                forall|j: int| 0 <= j < memory@.len() ==> memory@[j] is None,
            decreases pad - memory@.len(),
        {
            memory.push(None);
        }
        let mut k: usize = 0;
        while k < self.memory.len()
            invariant
                k <= self.memory@.len(),
                memory@.len() == pad + k,
                forall|j: int| 0 <= j < pad ==> memory@[j] is None,
                forall|j: int| 0 <= j < k ==> memory@[pad + j] == self.memory@[j],
            decreases self.memory@.len() - k,
        {
            memory.push(self.memory[k]);
            k = k + 1;
        }
        while memory.len() < len
            invariant
                pad + self.memory@.len() <= memory@.len() <= len,
                forall|j: int| 0 <= j < pad ==> memory@[j] is None,
                forall|j: int| 0 <= j < self.memory@.len() ==> memory@[pad + j] == self.memory@[j],
                forall|j: int| pad + self.memory@.len() <= j < memory@.len() ==> memory@[j] is None,
            decreases len - memory@.len(),
        {
            memory.push(None);
        }
        let ghost old_self = *self;
        self.memory = memory;
        self.min_offset = Offset(lo);
        proof {
            assert forall|off: int| #[trigger] self.cell(off) == old_self.cell(off) by {
                let j = off - lo;
                if 0 <= j < len && pad <= j < pad + old_self.memory@.len() {
                    assert(self.memory@[pad + (j - pad)] == old_self.memory@[j - pad]);
                }
            }
        }
    }
}


/// Moved events can be appended to each other.
proof fn lemma_moved_events_append(
    nodes2: Seq<Node>,
    e2: Seq<IoEvent>,
    t2: Seq<IoEvent>,
    nodes0: Seq<Node>,
    e1: Seq<IoEvent>,
    t1: Seq<IoEvent>,
    from: BlockId,
    to: &Block,
)
    requires
        moved_events(nodes2, e2, nodes0, e1, from, to),
        moved_events(nodes2, t2, nodes0, t1, from, to),
    ensures
        moved_events(nodes2, e2 + t2, nodes0, e1 + t1, from, to),
{
    assert forall|k: int| 0 <= k < (e1 + t1).len() implies match (#[trigger] (e1 + t1)[k], (e2 + t2)[k]) {
        (IoEvent::Output(x), IoEvent::Output(r)) => moved_value(nodes2, r, nodes0, x, from, to),
        (IoEvent::Input(x), IoEvent::Input(r)) => r == x,
        _ => false,
    } by {
        if k < e1.len() {
            assert((e1 + t1)[k] == e1[k]);
            assert((e2 + t2)[k] == e2[k]);
        } else {
            assert((e1 + t1)[k] == t1[k - e1.len()]);
            assert((e2 + t2)[k] == t2[k - e1.len()]);
        }
    }
}

/// Moved events stay moved when the graph grows.
proof fn lemma_moved_events_extend(
    g2: &Graph,
    g3: &Graph,
    e2: Seq<IoEvent>,
    nodes0: Seq<Node>,
    e1: Seq<IoEvent>,
    from: BlockId,
    to: &Block,
)
    requires
        g3.extends(g2),
        moved_events(g2@, e2, nodes0, e1, from, to),
        forall|k: int| 0 <= k < e2.len() ==> (#[trigger] e2[k] matches IoEvent::Output(r) ==> r.0 < g2@.len()),
    ensures
        moved_events(g3@, e2, nodes0, e1, from, to),
{
    assert forall|k: int| 0 <= k < e1.len() implies match (#[trigger] e1[k], e2[k]) {
        (IoEvent::Output(x), IoEvent::Output(r)) => moved_value(g3@, r, nodes0, x, from, to),
        (IoEvent::Input(x), IoEvent::Input(r)) => r == x,
        _ => false,
    } by {
        if let (IoEvent::Output(x), IoEvent::Output(r)) = (e1[k], e2[k]) {
            lemma_moved_value_extend(g2, g3, r, nodes0, x, from, to);
        }
    }
}

/// The output events of a node below `n` name nodes below `n`.
pub open spec fn events_below(e: Seq<IoEvent>, n: nat) -> bool {
    forall|k: int| 0 <= k < e.len() ==> (#[trigger] e[k] matches IoEvent::Output(r) ==> r.0 < n)
}

/// The events of effects below `n` are below `n`.
pub proof fn lemma_io_events_below(s: Seq<Effect>, n: nat)
    requires
        effects_below(s, n),
    ensures
        events_below(io_events(s), n),
    decreases s.len(),
{
    if s.len() > 0 {
        assert(effects_below(s.drop_last(), n)) by {
            assert forall|k: int| 0 <= k < s.drop_last().len() implies effect_below(#[trigger] s.drop_last()[k], n) by {
                assert(s.drop_last()[k] == s[k]);
            }
        }
        lemma_io_events_below(s.drop_last(), n);
        assert(effect_below(s[s.len() - 1], n));
        let a = io_events(s.drop_last());
        let b = effect_io(s.last());
        assert forall|k: int| 0 <= k < (a + b).len() implies (#[trigger] (a + b)[k] matches IoEvent::Output(r) ==> r.0 < n) by {
            if k >= a.len() {
                assert((a + b)[k] == b[k - a.len()]);
            }
        }
    }
}

/// The guards of a prefix of the effects are a prefix of their guards.
proof fn lemma_guards_prefix(s: Seq<Effect>, k: int)
    requires
        0 <= k <= s.len(),
    ensures
        guards(s.take(k)).len() <= guards(s).len(),
        guards(s).take(guards(s.take(k)).len() as int) == guards(s.take(k)),
    decreases s.len(),
{
    if k == s.len() {
        assert(s.take(k) =~= s);
        assert(guards(s).take(guards(s).len() as int) =~= guards(s));
    } else {
        assert(s.drop_last().take(k) =~= s.take(k));
        lemma_guards_prefix(s.drop_last(), k);
        let p = guards(s.take(k));
        let q = guards(s.drop_last());
        match s.last() {
            Effect::GuardShift(o) => {
                assert(guards(s) == q.push(o.0 as int));
                assert(q.push(o.0 as int).take(p.len() as int) =~= q.take(p.len() as int));
            },
            _ => {},
        }
    }
}


impl Block {
    /// Whether `c` is `a` followed by `b`, the values of `b` moved to after
    /// `a`: the pointer moves by both shifts, the guarded range widens by the
    /// guards of `b` that leave it, the I/O events of `b` follow those of `a`,
    /// and the cells hold what running `b` on the cells left by `a` gives.
    pub open spec fn concatenation_of(&self, a: &Block, b: &Block, nodes2: Seq<Node>, nodes0: Seq<Node>) -> bool {
        let c = self;
        &&& c.id == a.id
        &&& c.offset.0 == a.offset.0 + b.offset.0
        &&& ({
            let w = widening_guards(
                a.guarded_left.0 as int,
                a.guarded_right.0 as int,
                shifted(guards(b.effects@), a.offset.0 as int),
            );
            &&& guards(c.effects@) == guards(a.effects@) + w.0
            &&& c.guarded_left.0 == (if w.1 < a.offset.0 + b.guarded_left.0 {
                w.1
            } else {
                a.offset.0 + b.guarded_left.0
            })
            &&& c.guarded_right.0 == (if w.2 > a.offset.0 + b.guarded_right.0 {
                w.2
            } else {
                a.offset.0 + b.guarded_right.0
            })
        })
        &&& io_events(c.effects@).len() == io_events(a.effects@).len() + io_events(b.effects@).len()
        &&& io_events(c.effects@).take(io_events(a.effects@).len() as int) == io_events(a.effects@)
        &&& moved_events(
            nodes2,
            io_events(c.effects@).skip(io_events(a.effects@).len() as int),
            nodes0,
            io_events(b.effects@),
            b.id,
            a,
        )
        &&& forall|off: int|
            #![trigger c.cell(off)]
            match b.cell(off - a.offset.0) {
                Some(x) => c.cell(off) matches Some(r) && r.0 < nodes2.len()
                    && moved_value(nodes2, r, nodes0, x, b.id, a),
                None => c.cell(off) == a.cell(off),
            }
        &&& forall|copy: spec_fn(Offset, BlockId) -> u8, input: spec_fn(InputId) -> u8, off: int|
            i64::MIN <= off <= i64::MAX && i64::MIN <= off - a.offset.0 <= i64::MAX
                ==> #[trigger] c.cell_value(nodes2, off, copy, input) == b.cell_value(
                nodes0,
                off - a.offset.0,
                moved_copy(b.id, a, nodes0, copy, input),
                input,
            )
    }
}

/// Whether each offset fits in `i64` once shifted by `delta`.
pub open spec fn shift_fits(offs: Seq<int>, delta: int) -> bool {
    forall|k: int| 0 <= k < offs.len() ==> i64::MIN <= #[trigger] offs[k] + delta <= i64::MAX
}

/// Guarding offsets that lie in `lo..=hi` only widens the range
/// `left..=right`, and no further than to `lo` and to `hi`.
proof fn lemma_widening_bounds(left: int, right: int, offs: Seq<int>, lo: int, hi: int)
    requires
        forall|k: int| 0 <= k < offs.len() ==> lo <= #[trigger] offs[k] <= hi,
    ensures
        widening_guards(left, right, offs).1 <= left,
        widening_guards(left, right, offs).1 >= left || widening_guards(left, right, offs).1 >= lo,
        widening_guards(left, right, offs).2 >= right,
        widening_guards(left, right, offs).2 <= right || widening_guards(left, right, offs).2 <= hi,
    decreases offs.len(),
{
    if offs.len() > 0 {
        let p = offs.drop_last();
        assert forall|k: int| 0 <= k < p.len() implies lo <= #[trigger] p[k] <= hi by {
            assert(p[k] == offs[k]);
        }
        lemma_widening_bounds(left, right, p, lo, hi);
        assert(lo <= offs[offs.len() - 1] <= hi);
    }
}

/// Concatenating a block whose guards lie in its guarded range widens the
/// guarded range to the lower of the two left ends and the higher of the two
/// right ends, those of the second block shifted by the first's offset.
pub proof fn lemma_concat_guarded_range(c: &Block, a: &Block, b: &Block, nodes2: Seq<Node>, nodes0: Seq<Node>)
    requires
        c.concatenation_of(a, b, nodes2, nodes0),
        forall|k: int|
            0 <= k < guards(b.effects@).len() ==> b.guarded_left.0 <= #[trigger] guards(b.effects@)[k]
                <= b.guarded_right.0,
    ensures
        c.guarded_left.0 == if a.guarded_left.0 <= a.offset.0 + b.guarded_left.0 {
            a.guarded_left.0 as int
        } else {
            a.offset.0 + b.guarded_left.0
        },
        c.guarded_right.0 == if a.guarded_right.0 >= a.offset.0 + b.guarded_right.0 {
            a.guarded_right.0 as int
        } else {
            a.offset.0 + b.guarded_right.0
        },
{
    let d = a.offset.0 as int;
    let offs = shifted(guards(b.effects@), d);
    assert forall|k: int| 0 <= k < offs.len() implies d + b.guarded_left.0 <= #[trigger] offs[k] <= d
        + b.guarded_right.0 by {
        assert(offs[k] == guards(b.effects@)[k] + d);
    }
    lemma_widening_bounds(
        a.guarded_left.0 as int,
        a.guarded_right.0 as int,
        offs,
        d + b.guarded_left.0,
        d + b.guarded_right.0,
    );
}

/// Effects that only guard shifts print and read nothing.
proof fn lemma_guards_only_no_io(effects: Seq<Effect>)
    requires
        forall|k: int| 0 <= k < effects.len() ==> (#[trigger] effects[k]) is GuardShift,
    ensures
        io_events(effects) == Seq::<IoEvent>::empty(),
        guards(effects).len() == effects.len(),
    decreases effects.len(),
{
    if effects.len() > 0 {
        let p = effects.drop_last();
        assert forall|k: int| 0 <= k < p.len() implies (#[trigger] p[k]) is GuardShift by {
            assert(p[k] == effects[k]);
        }
        lemma_guards_only_no_io(p);
        assert(effects[effects.len() - 1] is GuardShift);
        assert(io_events(effects) =~= Seq::<IoEvent>::empty());
    }
}

/// A block counted pure prints and reads nothing, and is counted as having
/// guards exactly when it guards some shift.
pub proof fn lemma_pure_block_no_io(b: &Block)
    requires
        b.purity() is Some,
    ensures
        io_events(b.effects@) == Seq::<IoEvent>::empty(),
        b.purity()->0 == (guards(b.effects@).len() > 0),
{
    lemma_guards_only_no_io(b.effects@);
}

/// Whether concatenating a block fits does not depend on what that block
/// prints or reads: two blocks that differ only in effects with the same
/// guards fit alike.
pub proof fn lemma_concat_fits_ignores_io(a: &Block, b: &Block, b2: &Block, copy_bound: int)
    requires
        b2.id == b.id,
        b2.memory@ == b.memory@,
        b2.offset == b.offset,
        b2.min_offset == b.min_offset,
        b2.guarded_left == b.guarded_left,
        b2.guarded_right == b.guarded_right,
        guards(b2.effects@) == guards(b.effects@),
    ensures
        a.concat_fits(b, copy_bound) == a.concat_fits(b2, copy_bound),
{
}

impl Block {
    /// The offsets that concatenating `other` after this block computes fit
    /// in `i64`, and the combined memory fits in `usize`.
    pub open spec fn can_concat(&self, other: &Block) -> bool {
        let d = self.offset.0 as int;
        let min = d + other.min_offset.0;
        let max = d + other.min_offset.0 + other.memory@.len();
        &&& self.fits()
        &&& other.fits()
        &&& i64::MIN <= d + other.offset.0 <= i64::MAX
        &&& i64::MIN <= min
        &&& max <= i64::MAX
        &&& i64::MIN <= d + other.guarded_left.0 <= i64::MAX
        &&& i64::MIN <= d + other.guarded_right.0 <= i64::MAX
        &&& shift_fits(guards(other.effects@), d)
        &&& self.reserved_range(min, max).1 - self.reserved_range(min, max).0 <= usize::MAX
    }

    /// Concatenates two basic blocks. Applies the operations of `other` to
    /// `self`.
    #[verifier::rlimit(50)]
    pub fn concat(&mut self, other: &Self, g: &mut Graph)
        requires
            old(g).wf(),
            old(self).nodes_below(old(g)@.len()),
            other.nodes_below(old(g)@.len()),
            old(self).can_concat(other),
            copies_shiftable(old(g)@, other.id, old(self).offset.0 as int, old(g)@.len() as int),
        ensures
            final(g).wf(),
            final(g).extends(old(g)),
            final(g).spec_next_block() == old(g).spec_next_block(),
            final(g).spec_next_input() == old(g).spec_next_input(),
            final(self).nodes_below(final(g)@.len()),
            final(self).fits(),
            final(self).concatenation_of(old(self), other, final(g)@, old(g)@),
            forall|off: int|
                #![trigger final(self).cell(off)]
                other.cell(off - old(self).offset.0) is Some ==> final(self).cell(off) == Some(
                    moved_node(final(g)@, other.cell(off - old(self).offset.0)->0, other.id, *old(self)).1,
                ),
    {
        let ghost a = *self;
        let ghost g0 = *g;
        let ghost na = io_events(a.effects@).len();
        let d = self.offset.0;
        proof {
            g.lemma_extends_refl();
            assert(other.effects@.take(0) =~= Seq::<Effect>::empty());
            assert(io_events(self.effects@).take(na as int) =~= io_events(a.effects@));
            assert(io_events(self.effects@).skip(na as int) =~= Seq::<IoEvent>::empty());
            assert(shifted(guards(Seq::<Effect>::empty()), d as int) =~= Seq::<int>::empty());
            assert(guards(self.effects@) =~= guards(a.effects@) + Seq::<int>::empty());
        }
        let mut k: usize = 0;
        while k < other.effects.len()
            invariant
                g0.wf(),
                g.wf(),
                g.extends(&g0),
                g.spec_next_block() == g0.spec_next_block(),
                g.spec_next_input() == g0.spec_next_input(),
                a.nodes_below(g0@.len()),
                other.nodes_below(g0@.len()),
                a.can_concat(other),
                copies_shiftable(g0@, other.id, a.offset.0 as int, g0@.len() as int),
                d == a.offset.0,
                self.id == a.id,
                self.offset == a.offset,
                self.min_offset == a.min_offset,
                self.memory == a.memory,
                k <= other.effects@.len(),
                effects_below(self.effects@, g@.len()),
                ({
                    let w = widening_guards(
                        a.guarded_left.0 as int,
                        a.guarded_right.0 as int,
                        shifted(guards(other.effects@.take(k as int)), d as int),
                    );
                    &&& guards(self.effects@) == guards(a.effects@) + w.0
                    &&& self.guarded_left.0 == w.1
                    &&& self.guarded_right.0 == w.2
                }),
                io_events(self.effects@).len() >= na,
                io_events(self.effects@).take(na as int) == io_events(a.effects@),
                moved_events(
                    g@,
                    io_events(self.effects@).skip(na as int),
                    g0@,
                    io_events(other.effects@.take(k as int)),
                    other.id,
                    &a,
                ),
            decreases other.effects@.len() - k,
        {
            let ghost s0 = *self;
            let ghost gk = *g;
            proof {
                assert(other.effects@.take(k + 1) =~= other.effects@.take(k as int).push(other.effects@[k as int]));
                lemma_events_push(other.effects@.take(k as int), other.effects@[k as int]);
                assert(effect_below(other.effects@[k as int], g0@.len()));
                g.lemma_extends(&g0);
            }
            match &other.effects[k] {
                Effect::Output(values) => {
                    proof {
                        lemma_shiftable_extend(&g0, g, other.id, d as int, g0@.len() as int);
                        assert forall|j: int| 0 <= j < values@.len() implies (#[trigger] values@[j]).0 < g0@.len() by {}
                    }
                    let mut moved = move_values(values, other.id, self, g, Ghost(g0@.len()));
                    proof {
                        g.lemma_extends(&gk);
                        Graph::lemma_extends_trans(&g0, &gk, g);
                        assert forall|j: int| 0 <= j < values@.len() implies (#[trigger] moved@[j]).0 < g@.len()
                            && moved_value(g@, moved@[j], g0@, values@[j], other.id, &a) by {
                            lemma_moved_value_rebase(&g0, &gk, g@, moved@[j], values@[j], other.id, &s0);
                            lemma_moved_same_block(g@, moved@[j], g0@, values@[j], other.id, &s0, &a);
                        }
                    }
                    let ghost mv = moved@;
                    let ghost new_io = mv.map_values(|v: NodeId| IoEvent::Output(v));
                    let n = self.effects.len();
                    if n > 0 && matches!(self.effects[n - 1], Effect::Output(_)) {
                        let last = self.effects.pop();
                        match last {
                            Some(Effect::Output(mut vs)) => {
                                let ghost vs0 = vs;
                                let ghost p = self.effects@;
                                vs.append(&mut moved);
                                self.effects.push(Effect::Output(vs));
                                proof {
                                    assert(s0.effects@ =~= p.push(Effect::Output(vs0)));
                                    lemma_events_push(p, Effect::Output(vs0));
                                    lemma_events_push(p, self.effects@.last());
                                    assert(self.effects@ =~= p.push(self.effects@.last()));
                                    assert(vs@.map_values(|v: NodeId| IoEvent::Output(v)) =~= vs0@.map_values(
                                        |v: NodeId| IoEvent::Output(v),
                                    ) + new_io);
                                    assert(io_events(self.effects@) =~= io_events(s0.effects@) + new_io);
                                    assert(guards(self.effects@) == guards(s0.effects@));
                                    assert forall|j: int| 0 <= j < vs@.len() implies (#[trigger] vs@[j]).0 < g@.len() by {
                                        if j < vs0@.len() {
                                            assert(effect_below(s0.effects@[n - 1], gk@.len()));
                                            assert(vs0@[j].0 < gk@.len());
                                        } else {
                                            assert(vs@[j] == mv[j - vs0@.len()]);
                                        }
                                    }
                                    assert forall|j: int| 0 <= j < self.effects@.len() implies effect_below(#[trigger] self.effects@[j], g@.len()) by {
                                        if j < p.len() {
                                            assert(self.effects@[j] == s0.effects@[j]);
                                        }
                                    }
                                }
                            },
                            _ => {
                                vstd::pervasive::unreached::<()>();
                            },
                        }
                    } else {
                        self.effects.push(Effect::Output(moved));
                        proof {
                            lemma_events_push(s0.effects@, Effect::Output(moved));
                            assert forall|j: int| 0 <= j < self.effects@.len() implies effect_below(#[trigger] self.effects@[j], g@.len()) by {
                                if j < s0.effects@.len() {
                                    assert(self.effects@[j] == s0.effects@[j]);
                                }
                            }
                        }
                    }
                    proof {
                        assert(moved_events(g@, new_io, g0@, effect_io(other.effects@[k as int]), other.id, &a));
                        lemma_io_events_below(s0.effects@, gk@.len());
                        assert(io_events(s0.effects@).skip(na as int) =~= io_events(s0.effects@).skip(na as int));
                        assert forall|j: int| 0 <= j < io_events(s0.effects@).skip(na as int).len() implies
                            (#[trigger] io_events(s0.effects@).skip(na as int)[j] matches IoEvent::Output(r) ==> r.0 < gk@.len()) by {
                            assert(io_events(s0.effects@).skip(na as int)[j] == io_events(s0.effects@)[j + na]);
                        }
                        lemma_moved_events_extend(&gk, g, io_events(s0.effects@).skip(na as int), g0@,
                            io_events(other.effects@.take(k as int)), other.id, &a);
                        lemma_moved_events_append(g@, io_events(s0.effects@).skip(na as int), new_io, g0@,
                            io_events(other.effects@.take(k as int)), effect_io(other.effects@[k as int]), other.id, &a);
                        assert(io_events(self.effects@).skip(na as int) =~= io_events(s0.effects@).skip(na as int) + new_io);
                        assert(io_events(self.effects@).take(na as int) =~= io_events(s0.effects@).take(na as int));
                        assert(shifted(guards(other.effects@.take(k + 1)), d as int) =~= shifted(guards(other.effects@.take(k as int)), d as int));
                    }
                },
                Effect::Input(input) => {
                    self.effects.push(Effect::Input(*input));
                    proof {
                        let new_io = seq![IoEvent::Input(*input)];
                        lemma_events_push(s0.effects@, Effect::Input(*input));
                        assert(effect_io(other.effects@[k as int]) == new_io);
                        lemma_moved_events_append(g@, io_events(s0.effects@).skip(na as int), new_io, g0@,
                            io_events(other.effects@.take(k as int)), new_io, other.id, &a);
                        assert(io_events(self.effects@).skip(na as int) =~= io_events(s0.effects@).skip(na as int) + new_io);
                        assert(io_events(self.effects@).take(na as int) =~= io_events(s0.effects@).take(na as int));
                        assert(shifted(guards(other.effects@.take(k + 1)), d as int) =~= shifted(guards(other.effects@.take(k as int)), d as int));
                        assert forall|j: int| 0 <= j < self.effects@.len() implies effect_below(#[trigger] self.effects@[j], g@.len()) by {
                            if j < s0.effects@.len() {
                                assert(self.effects@[j] == s0.effects@[j]);
                            }
                        }
                    }
                },
                Effect::GuardShift(offset) => {
                    proof {
                        let gs = guards(other.effects@.take(k as int));
                        assert(guards(other.effects@.take(k + 1)) == gs.push(offset.0 as int));
                        lemma_guards_prefix(other.effects@, k + 1);
                        assert(guards(other.effects@)[gs.len() as int] == guards(other.effects@).take((gs.len() + 1) as int)[gs.len() as int]);
                        assert(shift_fits(guards(other.effects@), d as int));
                        assert(guards(other.effects@)[gs.len() as int] == offset.0);
                        assert(shifted(gs.push(offset.0 as int), d as int) =~= shifted(gs, d as int).push(offset.0 + d));
                        assert(shifted(gs.push(offset.0 as int), d as int).drop_last() =~= shifted(gs, d as int));
                    }
                    let o = d + offset.0;
                    if o < self.guarded_left.0 {
                        self.guarded_left = Offset(o);
                        self.effects.push(Effect::GuardShift(Offset(o)));
                    } else if o > self.guarded_right.0 {
                        self.guarded_right = Offset(o);
                        self.effects.push(Effect::GuardShift(Offset(o)));
                    }
                    proof {
                        lemma_events_push(s0.effects@, Effect::GuardShift(Offset(o)));
                        assert(effect_io(other.effects@[k as int]) =~= Seq::<IoEvent>::empty());
                        assert(io_events(other.effects@.take(k + 1)) =~= io_events(other.effects@.take(k as int)));
                        assert(io_events(s0.effects@) + Seq::<IoEvent>::empty() =~= io_events(s0.effects@));
                        assert forall|j: int| 0 <= j < self.effects@.len() implies effect_below(#[trigger] self.effects@[j], g@.len()) by {
                            if j < s0.effects@.len() {
                                assert(self.effects@[j] == s0.effects@[j]);
                            }
                        }
                        let w0 = widening_guards(a.guarded_left.0 as int, a.guarded_right.0 as int,
                            shifted(guards(other.effects@.take(k as int)), d as int));
                        if o < s0.guarded_left.0 || o > s0.guarded_right.0 {
                            assert(guards(self.effects@) =~= guards(a.effects@) + w0.0.push(o as int));
                        }
                    }
                },
            }
            k = k + 1;
        }
        let ghost gm = *g;
        let ghost s1 = *self;
        proof {
            assert(other.effects@.take(other.effects@.len() as int) =~= other.effects@);
            g.lemma_extends(&g0);
            lemma_shiftable_extend(&g0, g, other.id, d as int, g0@.len() as int);
        }
        let other_memory = move_memory(&other.memory, other.id, self, g, Ghost(g0@.len()));
        proof {
            g.lemma_extends(&gm);
            Graph::lemma_extends_trans(&g0, &gm, g);
            lemma_io_events_below(s1.effects@, gm@.len());
            assert forall|j: int| 0 <= j < io_events(s1.effects@).skip(na as int).len() implies
                (#[trigger] io_events(s1.effects@).skip(na as int)[j] matches IoEvent::Output(r) ==> r.0 < gm@.len()) by {
                assert(io_events(s1.effects@).skip(na as int)[j] == io_events(s1.effects@)[j + na]);
            }
            lemma_moved_events_extend(&gm, g, io_events(s1.effects@).skip(na as int), g0@,
                io_events(other.effects@), other.id, &a);
            assert forall|j: int| 0 <= j < other.memory@.len() implies match (#[trigger] other.memory@[j], other_memory@[j]) {
                (Some(x), Some(r)) => r.0 < g@.len() && moved_value(g@, r, g0@, x, other.id, &a),
                (None, None) => true,
                _ => false,
            } by {
                if let (Some(x), Some(r)) = (other.memory@[j], other_memory@[j]) {
                    assert(x.0 < g0@.len());
                    lemma_moved_value_rebase(&g0, &gm, g@, r, x, other.id, &s1);
                    lemma_moved_same_block(g@, r, g0@, x, other.id, &s1, &a);
                }
            }
            assert forall|off: int| #[trigger] s1.cell(off) == a.cell(off) by {}
            assert forall|j: int| 0 <= j < other.memory@.len() && other.memory@[j] is Some implies
                #[trigger] other_memory@[j] == Some(moved_node(g@, other.memory@[j]->0, other.id, a).1) by {
                lemma_moved_node_same_block(g@, other.memory@[j]->0, other.id, s1, a);
            }
        }
        let other_max = other.max_offset();
        let min_offset = Offset(d + other.min_offset.0);
        let max_offset = Offset(d + other_max.0);
        self.reserve(min_offset, max_offset);
        let ghost reserved = self.memory@;
        let ghost r_self = *self;
        let base: usize = (min_offset.0 as i128 - self.min_offset.0 as i128) as usize;
        let mut i: usize = 0;
        while i < other_memory.len()
            invariant
                i <= other_memory@.len(),
                other_memory@.len() == other.memory@.len(),
                base + other_memory@.len() <= self.memory@.len(),
                self.memory@.len() == reserved.len(),
                reserved.len() <= usize::MAX,
                self.effects == r_self.effects,
                self.id == r_self.id,
                self.offset == r_self.offset,
                self.min_offset == r_self.min_offset,
                self.guarded_left == r_self.guarded_left,
                self.guarded_right == r_self.guarded_right,
                forall|j: int|
                    0 <= j < reserved.len() ==> #[trigger] self.memory@[j] == (if base <= j < base + i
                        && other_memory@[j - base] is Some {
                        other_memory@[j - base]
                    } else {
                        reserved[j]
                    }),
            decreases other_memory@.len() - i,
        {
            match other_memory[i] {
                Some(c) => {
                    self.memory.set(base + i, Some(c));
                },
                None => {},
            }
            i = i + 1;
        }
        let gl = Offset(d + other.guarded_left.0);
        let gr = Offset(d + other.guarded_right.0);
        if gl.0 < self.guarded_left.0 {
            self.guarded_left = gl;
        }
        if gr.0 > self.guarded_right.0 {
            self.guarded_right = gr;
        }
        self.offset = Offset(d + other.offset.0);
        proof {
            assert forall|off: int|
                #![trigger self.cell(off)]
                match other.cell(off - a.offset.0) {
                    Some(x) => self.cell(off) matches Some(r) && r.0 < g@.len()
                        && moved_value(g@, r, g0@, x, other.id, &a),
                    None => self.cell(off) == a.cell(off),
                } by {
                let j = off - a.offset.0 - other.min_offset.0;
                assert(s1.cell(off) == a.cell(off));
                assert(r_self.cell(off) == s1.cell(off));
                let q = off - self.min_offset.0;
                if 0 <= j < other.memory@.len() {
                    assert(q == base + j);
                    assert(self.memory@[base + j] == (if other_memory@[j] is Some { other_memory@[j] } else { reserved[base + j] }));
                    assert(other.cell(off - a.offset.0) == other.memory@[j]);
                } else if 0 <= q < self.memory@.len() {
                    assert(self.memory@[q] == reserved[q]);
                }
            }
            assert forall|j: int| 0 <= j < self.memory@.len() implies (#[trigger] self.memory@[j] matches Some(id) ==> id.0 < g@.len()) by {
                let off = j + self.min_offset.0;
                assert(self.cell(off) == self.memory@[j]);
                if base <= j < base + other_memory@.len() && other_memory@[j - base] is Some {
                    assert(other.memory@[j - base] is Some);
                } else {
                    assert(reserved[j] == self.memory@[j]);
                    assert(r_self.cell(off) == s1.cell(off));
                    assert(s1.cell(off) == a.cell(off));
                    if let Some(id) = a.cell(off) {
                        assert(a.memory@[off - a.min_offset.0] == Some(id));
                    }
                }
            }
            assert forall|copy: spec_fn(Offset, BlockId) -> u8, input: spec_fn(InputId) -> u8, off: int|
                i64::MIN <= off <= i64::MAX && i64::MIN <= off - a.offset.0 <= i64::MAX
                    implies #[trigger] self.cell_value(g@, off, copy, input) == other.cell_value(
                    g0@,
                    off - a.offset.0,
                    moved_copy(other.id, &a, g0@, copy, input),
                    input,
                ) by {
                let m = moved_copy(other.id, &a, g0@, copy, input);
                g.lemma_extends(&g0);
                match other.cell(off - a.offset.0) {
                    Some(x) => {},
                    None => {
                        assert(self.cell(off) == a.cell(off));
                        assert(a.offset.0 + (off - a.offset.0) == off);
                        match a.cell(off) {
                            Some(y) => {
                                assert(a.memory@[off - a.min_offset.0] == Some(y));
                                lemma_eval_extend(g0@, g@, y, copy, input);
                                lemma_eval_range(g0@, y, copy, input);
                            },
                            None => {},
                        }
                    },
                }
            }
            assert forall|j: int| 0 <= j < self.effects@.len() implies effect_below(#[trigger] self.effects@[j], g@.len()) by {
                assert(effect_below(self.effects@[j], gm@.len()));
                if let Effect::Output(vs) = self.effects@[j] {
                    assert forall|q: int| 0 <= q < vs@.len() implies (#[trigger] vs@[q]).0 < g@.len() by {}
                }
            }
        }
    }
}


/// A builder for a basic block, which avoids constructing intermediate nodes
/// from sequences of `+` and `-` instructions.
pub struct BlockBuilder {
    /// The block under construction.
    block: Block,
    /// Constant addends to each cell. `addends[i]` corresponds with
    /// `block.memory[i]`.
    addends: Vec<u8>,
}

impl BlockBuilder {
    /// The block under construction.
    pub closed spec fn spec_block(&self) -> Block {
        self.block
    }

    /// The constants added to the cells of the memory.
    pub closed spec fn spec_addends(&self) -> Seq<u8> {
        self.addends@
    }

    /// The constant added to the cell at `off`.
    pub closed spec fn addend(&self, off: int) -> u8 {
        let i = off - self.block.min_offset.0;
        if 0 <= i < self.addends@.len() {
            self.addends@[i]
        } else {
            0
        }
    }

    /// A cell outside the memory has no addend.
    pub proof fn lemma_addend_outside(&self, off: int)
        requires
            self.well_shaped(),
        ensures
            off < self.spec_block().min_offset.0 || off >= self.spec_block().min_offset.0
                + self.spec_block().memory@.len() ==> self.addend(off) == 0,
    {
    }

    /// There is an addend for each cell of the memory, and the memory's
    /// offsets fit in `i64`.
    pub closed spec fn well_shaped(&self) -> bool {
        &&& self.addends@.len() == self.block.memory@.len()
        &&& self.block.fits()
    }

    /// The builder's invariant, for a graph of `n` nodes.
    pub open spec fn wf(&self, n: nat) -> bool {
        &&& self.well_shaped()
        &&& self.spec_block().nodes_below(n)
    }

    /// The value that the cell at `off` holds once the block is finished with
    /// the ID `id`: its assigned node, or its copy, plus its addend.
    pub open spec fn value_at(
        &self,
        nodes: Seq<Node>,
        off: int,
        id: BlockId,
        copy: spec_fn(Offset, BlockId) -> u8,
        input: spec_fn(InputId) -> u8,
    ) -> int {
        let base = match self.spec_block().cell(off) {
            Some(c) => eval(nodes, c, copy, input),
            None => copy(Offset(off as i64), id) as int,
        };
        crate::node::add8(base, self.addend(off) as int)
    }

    /// The range of offsets that the memory covers once it also covers the
    /// cell pointer.
    pub open spec fn touch_range(&self) -> (int, int) {
        let b = self.spec_block();
        let lo = if b.memory@.len() == 0 || b.offset.0 < b.min_offset.0 {
            b.offset.0 as int
        } else {
            b.min_offset.0 as int
        };
        let hi = if b.memory@.len() == 0 || b.offset.0 + 1 > b.min_offset.0 + b.memory@.len() {
            b.offset.0 + 1
        } else {
            b.min_offset.0 + b.memory@.len()
        };
        (lo, hi)
    }

    /// The memory can grow to cover the cell pointer: the range that it then
    /// covers fits in `usize`, and its end in `i64`.
    pub open spec fn can_touch(&self) -> bool {
        &&& self.touch_range().1 <= i64::MAX
        &&& self.touch_range().1 - self.touch_range().0 <= usize::MAX
    }

    /// The memory covers the range that `old` would cover once it covered
    /// its cell pointer.
    pub open spec fn touched(&self, old: &BlockBuilder) -> bool {
        &&& self.spec_block().min_offset.0 == old.touch_range().0
        &&& self.spec_block().min_offset.0 + self.spec_block().memory@.len() == old.touch_range().1
    }

    /// Constructs a new builder for basic blocks with successive IDs starting
    /// from 0.
    pub fn new() -> (bb: Self)
        ensures
            forall|n: nat| bb.wf(n),
            bb.wf(0),
            bb.well_shaped(),
            forall|off: int| #[trigger] bb.addend(off) == 0,
            bb.spec_block().id == BlockId(0),
            bb.spec_block().memory@.len() == 0,
            bb.spec_block().effects@.len() == 0,
            bb.spec_block().offset == Offset(0),
            bb.spec_block().min_offset == Offset(0),
            bb.spec_block().guarded_left == Offset(0),
            bb.spec_block().guarded_right == Offset(0),
    {
        BlockBuilder { block: Block::new(BlockId(0)), addends: Vec::new() }
    }

    /// Shifts the cell pointer by a constant amount and guards that the shift
    /// is in bounds.
    pub fn shift(&mut self, delta: i64)
        requires
            i64::MIN <= old(self).spec_block().offset.0 + delta <= i64::MAX,
        ensures
            ({
                let b0 = old(self).spec_block();
                let b = final(self).spec_block();
                let o = b0.offset.0 + delta;
                &&& b.offset.0 == o
                &&& b.id == b0.id
                &&& b.memory == b0.memory
                &&& b.min_offset == b0.min_offset
                &&& if o < b0.guarded_left.0 {
                    &&& b.guarded_left.0 == o
                    &&& b.guarded_right == b0.guarded_right
                    &&& b.effects@ == b0.effects@.push(Effect::GuardShift(Offset(o as i64)))
                } else if o > b0.guarded_right.0 {
                    &&& b.guarded_left == b0.guarded_left
                    &&& b.guarded_right.0 == o
                    &&& b.effects@ == b0.effects@.push(Effect::GuardShift(Offset(o as i64)))
                } else {
                    &&& b.guarded_left == b0.guarded_left
                    &&& b.guarded_right == b0.guarded_right
                    &&& b.effects@ == b0.effects@
                }
            }),
            final(self).spec_addends() == old(self).spec_addends(),
            forall|off: int| #[trigger] final(self).addend(off) == old(self).addend(off),
            forall|n: nat| old(self).wf(n) ==> final(self).wf(n),
    {
        let o = self.block.offset.0 + delta;
        self.block.offset = Offset(o);
        if o < self.block.guarded_left.0 {
            self.block.guarded_left = Offset(o);
        } else if o > self.block.guarded_right.0 {
            self.block.guarded_right = Offset(o);
        } else {
            return;
        }
        self.block.effects.push(Effect::GuardShift(Offset(o)));
    }
}


/// Prepends `n` unassigned cells.
fn prepend_cells(v: &Vec<Option<NodeId>>, n: usize) -> (out: Vec<Option<NodeId>>)
    requires
        n + v@.len() <= usize::MAX,
    ensures
        out@ == Seq::new(n as nat, |j: int| None::<NodeId>) + v@,
{
    let mut out: Vec<Option<NodeId>> = Vec::new();
    while out.len() < n
        invariant
            out@.len() <= n,
            forall|j: int| 0 <= j < out@.len() ==> out@[j] is None,
        decreases n - out@.len(),
    {
        out.push(None);
    }
    let mut k: usize = 0;
    while k < v.len()
        invariant
            k <= v@.len(),
            n + v@.len() <= usize::MAX,
            out@.len() == n + k,
            forall|j: int| 0 <= j < n ==> out@[j] is None,
            forall|j: int| 0 <= j < k ==> out@[n + j] == v@[j],
        decreases v@.len() - k,
    {
        out.push(v[k]);
        k = k + 1;
    }
    assert(out@ =~= Seq::new(n as nat, |j: int| None::<NodeId>) + v@);
    out
}

/// Prepends `n` zero addends.
fn prepend_zeros(v: &Vec<u8>, n: usize) -> (out: Vec<u8>)
    requires
        n + v@.len() <= usize::MAX,
    ensures
        out@ == Seq::new(n as nat, |j: int| 0u8) + v@,
{
    let mut out: Vec<u8> = Vec::new();
    while out.len() < n
        invariant
            out@.len() <= n,
            forall|j: int| 0 <= j < out@.len() ==> out@[j] == 0,
        decreases n - out@.len(),
    {
        out.push(0);
    }
    let mut k: usize = 0;
    while k < v.len()
        invariant
            k <= v@.len(),
            n + v@.len() <= usize::MAX,
            out@.len() == n + k,
            forall|j: int| 0 <= j < n ==> out@[j] == 0,
            forall|j: int| 0 <= j < k ==> out@[n + j] == v@[j],
        decreases v@.len() - k,
    {
        out.push(v[k]);
        k = k + 1;
    }
    assert(out@ =~= Seq::new(n as nat, |j: int| 0u8) + v@);
    out
}

impl BlockBuilder {
    /// Grows the memory to cover the cell pointer, and returns the index of
    /// its cell.
    fn get_parts(&mut self) -> (i: usize)
        requires
            old(self).addends@.len() == old(self).block.memory@.len(),
            old(self).block.fits(),
            old(self).can_touch(),
        ensures
            final(self).addends@.len() == final(self).block.memory@.len(),
            final(self).block.fits(),
            i == final(self).block.offset.0 - final(self).block.min_offset.0,
            i < final(self).block.memory@.len(),
            final(self).touched(old(self)),
            forall|off: int| #[trigger] final(self).block.cell(off) == old(self).block.cell(off),
            forall|off: int| #[trigger] final(self).addend(off) == old(self).addend(off),
            forall|n: nat| memory_below(old(self).block.memory@, n) ==> memory_below(final(self).block.memory@, n),
            final(self).block.id == old(self).block.id,
            final(self).block.effects == old(self).block.effects,
            final(self).block.offset == old(self).block.offset,
            final(self).block.guarded_left == old(self).block.guarded_left,
            final(self).block.guarded_right == old(self).block.guarded_right,
    {
        let ghost s0 = *self;
        let offset = self.block.offset.0;
        if self.block.memory.len() == 0 {
            self.block.memory.push(None);
            self.addends.push(0);
            self.block.min_offset = self.block.offset;
            proof {
                assert forall|off: int| #[trigger] self.block.cell(off) == s0.block.cell(off) by {}
                assert forall|off: int| #[trigger] self.addend(off) == s0.addend(off) by {}
            }
        } else if offset < self.block.min_offset.0 {
            let additional: usize = (self.block.min_offset.0 as i128 - offset as i128) as usize;
            self.block.memory = prepend_cells(&self.block.memory, additional);
            self.addends = prepend_zeros(&self.addends, additional);
            self.block.min_offset = self.block.offset;
            proof {
                assert forall|off: int| #[trigger] self.block.cell(off) == s0.block.cell(off) by {
                    let j = off - offset;
                    if additional <= j < self.block.memory@.len() {
                        assert(self.block.memory@[j] == s0.block.memory@[j - additional]);
                    }
                }
                assert forall|off: int| #[trigger] self.addend(off) == s0.addend(off) by {
                    let j = off - offset;
                    if additional <= j < self.addends@.len() {
                        assert(self.addends@[j] == s0.addends@[j - additional]);
                    }
                }
            }
        } else {
            let i: i128 = offset as i128 - self.block.min_offset.0 as i128;
            if i >= self.block.memory.len() as i128 {
                let len: usize = (i + 1) as usize;
                while self.block.memory.len() < len
                    invariant
                        self.block.memory@.len() <= len,
                        s0.block.memory@.len() <= self.block.memory@.len(),
                        self.block.memory@.subrange(0, s0.block.memory@.len() as int) == s0.block.memory@,
                        forall|j: int| s0.block.memory@.len() <= j < self.block.memory@.len() ==> self.block.memory@[j] is None,
                        self.block.id == s0.block.id,
                        self.block.effects == s0.block.effects,
                        self.block.offset == s0.block.offset,
                        self.block.min_offset == s0.block.min_offset,
                        self.block.guarded_left == s0.block.guarded_left,
                        self.block.guarded_right == s0.block.guarded_right,
                        self.addends == s0.addends,
                    decreases len - self.block.memory@.len(),
                {
                    self.block.memory.push(None);
                }
                let ghost s1 = *self;
                while self.addends.len() < len
                    invariant
                        self.block == s1.block,
                        self.addends@.len() <= len,
                        s0.addends@.len() <= self.addends@.len(),
                        self.addends@.subrange(0, s0.addends@.len() as int) == s0.addends@,
                        forall|j: int| s0.addends@.len() <= j < self.addends@.len() ==> self.addends@[j] == 0,
                    decreases len - self.addends@.len(),
                {
                    self.addends.push(0);
                }
                proof {
                    assert forall|off: int| #[trigger] self.block.cell(off) == s0.block.cell(off) by {
                        let j = off - self.block.min_offset.0;
                        if 0 <= j < s0.block.memory@.len() {
                            assert(self.block.memory@.subrange(0, s0.block.memory@.len() as int)[j] == self.block.memory@[j]);
                        }
                    }
                    assert forall|off: int| #[trigger] self.addend(off) == s0.addend(off) by {
                        let j = off - self.block.min_offset.0;
                        if 0 <= j < s0.addends@.len() {
                            assert(self.addends@.subrange(0, s0.addends@.len() as int)[j] == self.addends@[j]);
                        }
                    }
                }
            }
        }
        proof {
            assert forall|n: nat| memory_below(s0.block.memory@, n) implies memory_below(self.block.memory@, n) by {
                assert forall|k: int| 0 <= k < self.block.memory@.len() implies (#[trigger] self.block.memory@[k] matches Some(id) ==> id.0 < n) by {
                    let off = k + self.block.min_offset.0;
                    assert(self.block.cell(off) == self.block.memory@[k]);
                    if let Some(id) = s0.block.cell(off) {
                        assert(s0.block.memory@[off - s0.block.min_offset.0] == Some(id));
                    }
                }
            }
        }
        (offset as i128 - self.block.min_offset.0 as i128) as usize
    }
}



impl BlockBuilder {
    /// The nodes and ID that getting the value at the cell pointer gives: the
    /// cell's node, or else a copy of the cell from the block, inserted as it
    /// is, plus the cell's addend when that is not 0, inserted in its ideal
    /// representation.
    pub open spec fn cell_node(&self, nodes: Seq<Node>) -> (Seq<Node>, NodeId) {
        let blk = self.spec_block();
        let off = blk.offset.0 as int;
        let (n1, base) = match blk.cell(off) {
            Some(c) => (nodes, c),
            None => after_insert(nodes, Node::Copy(blk.offset, blk.id)),
        };
        let addend = self.addend(off);
        if addend != 0 {
            let (n2, k) = after_insert(n1, Node::Const(addend));
            ideal_insert(n2, Node::Add(base, k))
        } else {
            (n1, base)
        }
    }
}

/// Getting the value at the cell pointer twice, with the same cells and
/// addends, gives the same ID the second time and leaves the graph as the
/// first time left it.
pub proof fn lemma_cell_node_twice(g0: &Graph, g1: &Graph, b0: &BlockBuilder, b1: &BlockBuilder, r: NodeId)
    requires
        g0.wf(),
        g1.wf(),
        b0.wf(g0@.len()),
        (g1@, r) == b0.cell_node(g0@),
        b1.same_as(b0),
    ensures
        b1.cell_node(g1@) == (g1@, r),
{
    lemma_graph_nodes(g0);
    lemma_graph_nodes(g1);
    let blk = b0.spec_block();
    let off = blk.offset.0 as int;
    assert(b1.spec_block().cell(off) == blk.cell(off));
    assert(b1.addend(off) == b0.addend(off));
    assert(b1.cell_node(g1@) == b0.cell_node(g1@));
    let p1 = match blk.cell(off) {
        Some(c) => (g0@, c),
        None => after_insert(g0@, Node::Copy(blk.offset, blk.id)),
    };
    let addend = b0.addend(off);
    if let Some(c) = blk.cell(off) {
        assert(blk.memory@[off - blk.min_offset.0] == Some(c));
    }
    assert(g1@.take(g1@.len() as int) =~= g1@);
    if addend != 0 {
        let p2 = after_insert(p1.0, Node::Const(addend));
        lemma_after_insert_grown(p1.0, Node::Const(addend));
        lemma_ideal_insert_grown(p2.0, Node::Add(p1.1, p2.1));
        lemma_grown_trans(p2.0, g1@, g1@);
        lemma_grown_trans(p1.0, p2.0, g1@);
        if blk.cell(off) is None {
            lemma_after_insert_grown(g0@, Node::Copy(blk.offset, blk.id));
            lemma_after_insert_grows(g0@, Node::Copy(blk.offset, blk.id));
            lemma_after_insert_stable(g0@, Node::Copy(blk.offset, blk.id), g1@);
        } else {
            assert(g0@.take(g0@.len() as int) =~= g0@);
        }
        lemma_after_insert_grows(p1.0, Node::Const(addend));
        lemma_after_insert_stable(p1.0, Node::Const(addend), g1@);
        lemma_ideal_insert_stable(p2.0, Node::Add(p1.1, p2.1), g1@);
    } else {
        if blk.cell(off) is None {
            lemma_after_insert_stable(g0@, Node::Copy(blk.offset, blk.id), g1@);
        }
    }
}

impl BlockBuilder {
    /// The builder holds the same cells, addends and effects as `other`, with
    /// the same pointer and guards; only the memory may cover more cells.
    pub open spec fn same_as(&self, other: &BlockBuilder) -> bool {
        let b = self.spec_block();
        let o = other.spec_block();
        &&& forall|off: int| #[trigger] b.cell(off) == o.cell(off)
        &&& forall|off: int| #[trigger] self.addend(off) == other.addend(off)
        &&& b.id == o.id
        &&& b.effects == o.effects
        &&& b.offset == o.offset
        &&& b.guarded_left == o.guarded_left
        &&& b.guarded_right == o.guarded_right
    }

    /// Gets the value at the cell pointer, forcing construction of its nodes.
    pub fn get(&mut self, g: &mut Graph) -> (r: NodeId)
        requires
            old(g).wf(),
            old(self).wf(old(g)@.len()),
            old(self).can_touch(),
        ensures
            final(g).wf(),
            final(g).extends(old(g)),
            final(g).spec_next_block() == old(g).spec_next_block(),
            final(g).spec_next_input() == old(g).spec_next_input(),
            final(self).wf(final(g)@.len()),
            final(self).same_as(old(self)),
            final(self).touched(old(self)),
            r.0 < final(g)@.len(),
            forall|copy: spec_fn(Offset, BlockId) -> u8, input: spec_fn(InputId) -> u8|
                #[trigger] eval(final(g)@, r, copy, input) == old(self).value_at(
                    old(g)@,
                    old(self).spec_block().offset.0 as int,
                    old(self).spec_block().id,
                    copy,
                    input,
                ),
            ({
                let b0 = old(self).spec_block();
                let off = b0.offset.0 as int;
                let cell = b0.cell(off);
                let addend = old(self).addend(off);
                let c = cell->0;
                &&& addend == 0 && cell is Some ==> r == c
                &&& addend == 0 && cell is None ==> final(g)@[r.0 as int] == Node::Copy(b0.offset, b0.id)
                &&& addend != 0 && cell is Some && old(g)@[c.0 as int] is Const
                    ==> final(g)@[r.0 as int] == Node::Const(
                    crate::node::add8(crate::node::const_value(old(g)@[c.0 as int]), addend as int) as u8,
                )
            }),
            (final(g)@, r) == old(self).cell_node(old(g)@),
    {
        let ghost g0 = *g;
        let ghost s0 = *self;
        let i = self.get_parts();
        let base = match self.block.memory[i] {
            Some(base) => base,
            None => Node::Copy(self.block.offset, self.block.id).insert(g),
        };
        let ghost g1 = *g;
        let addend = self.addends[i];
        let ghost off = self.block.offset.0 as int;
        proof {
            g.lemma_extends_refl();
            assert(self.block.cell(off) == self.block.memory@[i as int]);
            assert(self.addend(off) == addend);
            if let Some(c) = self.block.memory@[i as int] {
                assert(s0.block.cell(off) == Some(c));
                assert(s0.block.memory@[off - s0.block.min_offset.0] == Some(c));
            }
            assert forall|copy: spec_fn(Offset, BlockId) -> u8, input: spec_fn(InputId) -> u8|
                #[trigger] eval(g1@, base, copy, input) == match s0.block.cell(off) {
                    Some(c) => eval(g0@, c, copy, input),
                    None => copy(Offset(off as i64), s0.block.id) as int,
                } by {
                if let Some(c) = s0.block.cell(off) {
                    lemma_extends_value(&g0, &g1, c);
                }
            }
        }
        let r = if addend != 0 {
            let k = Node::Const(addend).insert(g);
            let ghost g2 = *g;
            proof {
                Graph::lemma_extends_trans(&g0, &g1, &g2);
                g2.lemma_extends(&g1);
            }
            proof {
                if let Some(c) = s0.block.cell(off) {
                    g2.lemma_extends(&g0);
                    assert(g2@[c.0 as int] == g0@[c.0 as int]);
                }
            }
            let r = Node::Add(base, k).insert(g);
            proof {
                Graph::lemma_extends_trans(&g0, &g2, g);
                assert forall|copy: spec_fn(Offset, BlockId) -> u8, input: spec_fn(InputId) -> u8|
                    #[trigger] eval(g@, r, copy, input) == s0.value_at(g0@, off, s0.block.id, copy, input) by {
                    lemma_eval_extend(g1@, g2@, base, copy, input);
                }
            }
            r
        } else {
            proof {
                assert forall|copy: spec_fn(Offset, BlockId) -> u8, input: spec_fn(InputId) -> u8|
                    #[trigger] eval(g@, base, copy, input) == s0.value_at(g0@, off, s0.block.id, copy, input) by {
                    lemma_eval_range(g@, base, copy, input);
                }
            }
            base
        };
        proof {
            g.lemma_extends(&g0);
            assert forall|k: int| 0 <= k < self.block.memory@.len() implies (#[trigger] self.block.memory@[k] matches Some(id) ==> id.0 < g@.len()) by {}
            assert forall|k: int| 0 <= k < self.block.effects@.len() implies effect_below(#[trigger] self.block.effects@[k], g@.len()) by {
                assert(effect_below(s0.block.effects@[k], g0@.len()));
                if let Effect::Output(vs) = self.block.effects@[k] {
                    assert forall|q: int| 0 <= q < vs@.len() implies (#[trigger] vs@[q]).0 < g@.len() by {}
                }
            }
        }
        r
    }

    /// Sets the value at the cell pointer.
    pub fn set(&mut self, node: NodeId)
        requires
            old(self).well_shaped(),
            old(self).can_touch(),
        ensures
            final(self).well_shaped(),
            final(self).touched(old(self)),
            ({
                let b0 = old(self).spec_block();
                let b = final(self).spec_block();
                &&& forall|off: int| #[trigger] b.cell(off) == (if off == b0.offset.0 { Some(node) } else { b0.cell(off) })
                &&& forall|off: int| #[trigger] final(self).addend(off) == (if off == b0.offset.0 { 0 } else { old(self).addend(off) })
                &&& b.id == b0.id
                &&& b.effects == b0.effects
                &&& b.offset == b0.offset
                &&& b.guarded_left == b0.guarded_left
                &&& b.guarded_right == b0.guarded_right
            }),
            forall|n: nat| old(self).wf(n) && node.0 < n ==> final(self).wf(n),
    {
        let ghost s0 = *self;
        let i = self.get_parts();
        let ghost s1 = *self;
        self.block.memory.set(i, Some(node));
        self.addends.set(i, 0);
        proof {
            assert forall|off: int| #[trigger] self.block.cell(off) == (if off == s0.block.offset.0 { Some(node) } else { s0.block.cell(off) }) by {
                assert(s1.block.cell(off) == s0.block.cell(off));
            }
            assert forall|off: int| #[trigger] self.addend(off) == (if off == s0.block.offset.0 { 0 } else { s0.addend(off) }) by {
                assert(s1.addend(off) == s0.addend(off));
            }
            assert forall|n: nat| s0.wf(n) && node.0 < n implies self.wf(n) by {
                assert(memory_below(s1.block.memory@, n));
                assert forall|k: int| 0 <= k < self.block.memory@.len() implies (#[trigger] self.block.memory@[k] matches Some(id) ==> id.0 < n) by {
                    if k != i {
                        assert(self.block.memory@[k] == s1.block.memory@[k]);
                    }
                }
            }
        }
    }

    /// Adds a constant amount to the value at the cell pointer.
    pub fn add(&mut self, addend: u8)
        requires
            old(self).well_shaped(),
            old(self).can_touch(),
        ensures
            final(self).well_shaped(),
            final(self).touched(old(self)),
            ({
                let b0 = old(self).spec_block();
                let b = final(self).spec_block();
                &&& forall|off: int| #[trigger] b.cell(off) == b0.cell(off)
                &&& forall|off: int| #[trigger] final(self).addend(off) == (if off == b0.offset.0 {
                    ((old(self).addend(off) + addend) % 256) as u8
                } else {
                    old(self).addend(off)
                })
                &&& b.id == b0.id
                &&& b.effects == b0.effects
                &&& b.offset == b0.offset
                &&& b.guarded_left == b0.guarded_left
                &&& b.guarded_right == b0.guarded_right
            }),
            forall|n: nat| old(self).wf(n) ==> final(self).wf(n),
    {
        let ghost s0 = *self;
        let i = self.get_parts();
        let ghost s1 = *self;
        let a = self.addends[i].wrapping_add(addend);
        self.addends.set(i, a);
        proof {
            assert(s1.addend(s0.block.offset.0 as int) == s1.addends@[i as int]);
            assert forall|off: int| #[trigger] self.addend(off) == (if off == s0.block.offset.0 {
                ((s0.addend(off) + addend) % 256) as u8
            } else {
                s0.addend(off)
            }) by {
                assert(s1.addend(off) == s0.addend(off));
            }
        }
    }
}


impl BlockBuilder {
    /// Outputs the value at the cell pointer.
    pub fn output(&mut self, g: &mut Graph)
        requires
            old(g).wf(),
            old(self).wf(old(g)@.len()),
            old(self).can_touch(),
        ensures
            final(g).wf(),
            final(g).extends(old(g)),
            final(g).spec_next_block() == old(g).spec_next_block(),
            final(g).spec_next_input() == old(g).spec_next_input(),
            final(self).wf(final(g)@.len()),
            final(self).touched(old(self)),
            forall|off: int| #[trigger] final(self).spec_block().cell(off) == old(self).spec_block().cell(off),
            forall|off: int| #[trigger] final(self).addend(off) == old(self).addend(off),
            final(self).spec_block().id == old(self).spec_block().id,
            final(self).spec_block().offset == old(self).spec_block().offset,
            final(self).spec_block().guarded_left == old(self).spec_block().guarded_left,
            final(self).spec_block().guarded_right == old(self).spec_block().guarded_right,
            guards(final(self).spec_block().effects@) == guards(old(self).spec_block().effects@),
            ({
                let e0 = io_events(old(self).spec_block().effects@);
                let e = io_events(final(self).spec_block().effects@);
                &&& e.len() == e0.len() + 1
                &&& e.take(e0.len() as int) == e0
                &&& e.last() matches IoEvent::Output(v) && v.0 < final(g)@.len()
                    && forall|copy: spec_fn(Offset, BlockId) -> u8, input: spec_fn(InputId) -> u8|
                    #[trigger] eval(final(g)@, v, copy, input) == old(self).value_at(
                        old(g)@,
                        old(self).spec_block().offset.0 as int,
                        old(self).spec_block().id,
                        copy,
                        input,
                    )
            }),
            ({
                let b0 = old(self).spec_block();
                let cell = b0.cell(b0.offset.0 as int);
                let addend = old(self).addend(b0.offset.0 as int);
                let v = io_events(final(self).spec_block().effects@).last()->Output_0;
                &&& addend == 0 && cell is Some ==> v == cell->0
                &&& addend == 0 && cell is None ==> final(g)@[v.0 as int] == Node::Copy(b0.offset, b0.id)
                &&& (final(g)@, v) == old(self).cell_node(old(g)@)
            }),
            ({
                let e0 = old(self).spec_block().effects@;
                let e = final(self).spec_block().effects@;
                let v = old(self).cell_node(old(g)@).1;
                if e0.len() > 0 && e0.last() is Output {
                    &&& e.len() == e0.len()
                    &&& e.drop_last() == e0.drop_last()
                    &&& e.last() matches Effect::Output(vs) && vs@ == e0.last()->Output_0@.push(v)
                } else {
                    &&& e.len() == e0.len() + 1
                    &&& e.drop_last() == e0
                    &&& e.last() matches Effect::Output(vs) && vs@ == seq![v]
                }
            }),
    {
        let ghost s0 = *self;
        let value = self.get(g);
        let ghost s1 = *self;
        let n = self.block.effects.len();
        if n > 0 && matches!(self.block.effects[n - 1], Effect::Output(_)) {
            let last = self.block.effects.pop();
            match last {
                Some(Effect::Output(mut values)) => {
                    let ghost vs0 = values;
                    let ghost p = self.block.effects@;
                    values.push(value);
                    self.block.effects.push(Effect::Output(values));
                    proof {
                        assert(s1.block.effects@ =~= p.push(Effect::Output(vs0)));
                        lemma_events_push(p, Effect::Output(vs0));
                        lemma_events_push(p, self.block.effects@.last());
                        assert(self.block.effects@ =~= p.push(self.block.effects@.last()));
                        assert(values@.map_values(|v: NodeId| IoEvent::Output(v)) =~= vs0@.map_values(
                            |v: NodeId| IoEvent::Output(v),
                        ).push(IoEvent::Output(value)));
                        assert(io_events(self.block.effects@) =~= io_events(s1.block.effects@).push(IoEvent::Output(value)));
                        assert forall|k: int| 0 <= k < self.block.effects@.len() implies effect_below(#[trigger] self.block.effects@[k], g@.len()) by {
                            if k < p.len() {
                                assert(self.block.effects@[k] == s1.block.effects@[k]);
                            } else {
                                assert(effect_below(s1.block.effects@[k], g@.len()));
                                assert forall|q: int| 0 <= q < values@.len() implies (#[trigger] values@[q]).0 < g@.len() by {
                                    if q < vs0@.len() {
                                        assert(values@[q] == vs0@[q]);
                                    }
                                }
                            }
                        }
                    }
                },
                _ => {
                    vstd::pervasive::unreached::<()>();
                },
            }
        } else {
            let values = vec![value];
            self.block.effects.push(Effect::Output(values));
            proof {
                lemma_events_push(s1.block.effects@, Effect::Output(values));
                assert(values@.map_values(|v: NodeId| IoEvent::Output(v)) =~= seq![IoEvent::Output(value)]);
                assert(io_events(self.block.effects@) =~= io_events(s1.block.effects@).push(IoEvent::Output(value)));
                assert forall|k: int| 0 <= k < self.block.effects@.len() implies effect_below(#[trigger] self.block.effects@[k], g@.len()) by {
                    if k < s1.block.effects@.len() {
                        assert(self.block.effects@[k] == s1.block.effects@[k]);
                    }
                }
            }
        }
        proof {
            assert(io_events(self.block.effects@).take(io_events(s0.block.effects@).len() as int) =~= io_events(s0.block.effects@));
            assert forall|off: int| #[trigger] self.spec_block().cell(off) == s0.spec_block().cell(off) by {
                assert(s1.spec_block().cell(off) == s0.spec_block().cell(off));
            }
            assert forall|off: int| #[trigger] self.addend(off) == s0.addend(off) by {
                assert(s1.addend(off) == s0.addend(off));
            }
        }
    }

    /// Gets a byte from the user and sets the value at the cell pointer to it.
    pub fn input(&mut self, g: &mut Graph)
        requires
            old(g).wf(),
            old(g).spec_next_input().0 < u32::MAX,
            old(self).wf(old(g)@.len()),
            old(self).can_touch(),
        ensures
            final(g).wf(),
            final(g).extends(old(g)),
            final(g).spec_next_block() == old(g).spec_next_block(),
            final(g).spec_next_input().0 == old(g).spec_next_input().0 + 1,
            final(self).wf(final(g)@.len()),
            final(self).touched(old(self)),
            ({
                let b0 = old(self).spec_block();
                let b = final(self).spec_block();
                &&& b.cell(b0.offset.0 as int) matches Some(n) && n.0 < final(g)@.len()
                    && final(g)@[n.0 as int] == Node::Input(old(g).spec_next_input())
                    && b.effects@ == b0.effects@.push(Effect::Input(n))
                &&& forall|off: int| off != b0.offset.0 ==> #[trigger] b.cell(off) == b0.cell(off)
                &&& forall|off: int| #[trigger] final(self).addend(off) == (if off == b0.offset.0 { 0 } else { old(self).addend(off) })
                &&& b.id == b0.id
                &&& b.offset == b0.offset
                &&& b.guarded_left == b0.guarded_left
                &&& b.guarded_right == b0.guarded_right
            }),
    {
        let ghost s0 = *self;
        let input = g.fresh_input();
        self.set(input);
        let ghost s1 = *self;
        self.block.effects.push(Effect::Input(input));
        proof {
            g.lemma_extends(&*old(g));
            let off0 = s0.block.offset.0 as int;
            assert(s1.spec_block().cell(off0) == Some(input));
            assert(self.spec_block().cell(off0) == Some(input));
            assert forall|off: int| off != off0 implies #[trigger] self.spec_block().cell(off) == s0.spec_block().cell(off) by {
                assert(s1.spec_block().cell(off) == s0.spec_block().cell(off));
            }
            assert forall|off: int| #[trigger] self.addend(off) == (if off == off0 { 0 } else { s0.addend(off) }) by {
                assert(s1.addend(off) == (if off == off0 { 0 } else { s0.addend(off) }));
            }
            assert forall|k: int| 0 <= k < self.block.effects@.len() implies effect_below(#[trigger] self.block.effects@[k], g@.len()) by {
                if k < s1.block.effects@.len() {
                    assert(self.block.effects@[k] == s1.block.effects@[k]);
                    assert(effect_below(s0.block.effects@[k], old(g)@.len()));
                    if let Effect::Output(vs) = self.block.effects@[k] {
                        assert forall|q: int| 0 <= q < vs@.len() implies (#[trigger] vs@[q]).0 < g@.len() by {}
                    }
                }
            }
            assert forall|k: int| 0 <= k < self.block.memory@.len() implies (#[trigger] self.block.memory@[k] matches Some(id) ==> id.0 < g@.len()) by {
                let off = k + self.block.min_offset.0;
                assert(self.block.cell(off) == self.block.memory@[k]);
                if off != s0.block.offset.0 {
                    assert(s1.spec_block().cell(off) == s0.spec_block().cell(off));
                    if let Some(id) = s0.block.cell(off) {
                        assert(s0.block.memory@[off - s0.block.min_offset.0] == Some(id));
                    }
                }
            }
        }
    }

    /// Reports whether the basic block being constructed is empty.
    pub fn is_empty(&self) -> (r: bool)
        ensures
            r == ({
                let b = self.spec_block();
                &&& b.memory@.len() == 0
                &&& b.effects@.len() == 0
                &&& b.offset == Offset(0)
                &&& b.min_offset == Offset(0)
                &&& b.guarded_left == Offset(0)
                &&& b.guarded_right == Offset(0)
            }),
    {
        let block = &self.block;
        block.memory.len() == 0 && block.effects.len() == 0 && block.offset.0 == 0
            && block.min_offset.0 == 0 && block.guarded_left.0 == 0 && block.guarded_right.0 == 0
    }
}


/// Whether `r` is the node that finishing builds, in a graph whose nodes
/// `nodes2` extend `nodes0`, for the cell at offset `off` of block `id` with
/// node `cell` and the non-zero `addend`: the sum of the cell's node, or else
/// of a copy of the cell, and the constant `addend`, inserted and idealized.
pub open spec fn finished_cell(
    nodes2: Seq<Node>,
    r: NodeId,
    nodes0: Seq<Node>,
    cell: Option<NodeId>,
    off: int,
    id: BlockId,
    addend: u8,
) -> bool {
    exists|nb: Seq<Node>, nc: Seq<Node>, base: NodeId, k: NodeId|
        #![trigger ideal_insert(nb, Node::Add(base, k)), nodes2.take(nc.len() as int)]
        {
            &&& nodes0.len() <= nb.len() && nb.take(nodes0.len() as int) == nodes0
            &&& base.0 < nb.len() && k.0 < nb.len()
            &&& match cell {
                Some(c) => base == c,
                None => nb[base.0 as int] == Node::Copy(Offset(off as i64), id),
            }
            &&& nb[k.0 as int] == Node::Const(addend)
            &&& ideal_insert(nb, Node::Add(base, k)) == (nc, r)
            &&& nc.len() <= nodes2.len() && nodes2.take(nc.len() as int) == nc
        }
}

/// A finished cell is one over any nodes that its graph extended.
pub(crate) proof fn lemma_finished_cell_base(
    n2: Seq<Node>,
    r: NodeId,
    nodes0: Seq<Node>,
    cell: Option<NodeId>,
    off: int,
    id: BlockId,
    addend: u8,
)
    requires
        finished_cell(n2, r, nodes0, cell, off, id, addend),
    ensures
        finished_cell(n2, r, Seq::empty(), cell, off, id, addend),
{
    let (nb, nc, base, k) = choose|nb: Seq<Node>, nc: Seq<Node>, base: NodeId, k: NodeId|
        #![trigger ideal_insert(nb, Node::Add(base, k)), n2.take(nc.len() as int)]
        {
            &&& nodes0.len() <= nb.len() && nb.take(nodes0.len() as int) == nodes0
            &&& base.0 < nb.len() && k.0 < nb.len()
            &&& match cell {
                Some(c) => base == c,
                None => nb[base.0 as int] == Node::Copy(Offset(off as i64), id),
            }
            &&& nb[k.0 as int] == Node::Const(addend)
            &&& ideal_insert(nb, Node::Add(base, k)) == (nc, r)
            &&& nc.len() <= n2.len() && n2.take(nc.len() as int) == nc
        };
    assert(nb.take(0) =~= Seq::<Node>::empty());
}

/// A finished cell stays one when the graph grows.
pub(crate) proof fn lemma_finished_cell_extend(
    n2: Seq<Node>,
    n3: Seq<Node>,
    r: NodeId,
    nodes0: Seq<Node>,
    cell: Option<NodeId>,
    off: int,
    id: BlockId,
    addend: u8,
)
    requires
        finished_cell(n2, r, nodes0, cell, off, id, addend),
        n2.len() <= n3.len(),
        n3.take(n2.len() as int) == n2,
    ensures
        finished_cell(n3, r, nodes0, cell, off, id, addend),
{
    let (nb, nc, base, k) = choose|nb: Seq<Node>, nc: Seq<Node>, base: NodeId, k: NodeId|
        #![trigger ideal_insert(nb, Node::Add(base, k)), n2.take(nc.len() as int)]
        {
            &&& nodes0.len() <= nb.len() && nb.take(nodes0.len() as int) == nodes0
            &&& base.0 < nb.len() && k.0 < nb.len()
            &&& match cell {
                Some(c) => base == c,
                None => nb[base.0 as int] == Node::Copy(Offset(off as i64), id),
            }
            &&& nb[k.0 as int] == Node::Const(addend)
            &&& ideal_insert(nb, Node::Add(base, k)) == (nc, r)
            &&& nc.len() <= n2.len() && n2.take(nc.len() as int) == nc
        };
    assert(n3.take(nc.len() as int) =~= n2.take(nc.len() as int));
}

impl BlockBuilder {
    /// Returns the finished basic block, with a fresh ID, and starts a new,
    /// empty one.
    #[verifier::rlimit(30)]
    pub fn finish(&mut self, g: &mut Graph) -> (block: Block)
        requires
            old(g).wf(),
            old(g).spec_next_block().0 < u32::MAX,
            old(self).wf(old(g)@.len()),
        ensures
            final(g).wf(),
            final(g).extends(old(g)),
            final(g).spec_next_block().0 == old(g).spec_next_block().0 + 1,
            final(g).spec_next_input() == old(g).spec_next_input(),
            block.id == old(g).spec_next_block(),
            block.effects == old(self).spec_block().effects,
            block.offset == old(self).spec_block().offset,
            block.min_offset == old(self).spec_block().min_offset,
            block.guarded_left == old(self).spec_block().guarded_left,
            block.guarded_right == old(self).spec_block().guarded_right,
            block.memory@.len() == old(self).spec_block().memory@.len(),
            forall|k: int|
                0 <= k < block.memory@.len() && old(self).addend(block.min_offset.0 + k) == 0
                    ==> #[trigger] block.memory@[k] == old(self).spec_block().memory@[k],
            forall|k: int|
                0 <= k < block.memory@.len() && old(self).addend(block.min_offset.0 + k) != 0
                    ==> (#[trigger] block.memory@[k] matches Some(r) && finished_cell(
                    final(g)@,
                    r,
                    old(g)@,
                    old(self).spec_block().memory@[k],
                    block.min_offset.0 + k,
                    block.id,
                    old(self).addend(block.min_offset.0 + k),
                )),
            block.nodes_below(final(g)@.len()),
            block.fits(),
            forall|copy: spec_fn(Offset, BlockId) -> u8, input: spec_fn(InputId) -> u8, off: int|
                i64::MIN <= off <= i64::MAX ==> #[trigger] block.cell_value(final(g)@, off, copy, input)
                    == old(self).value_at(old(g)@, off, block.id, copy, input),
            final(self).wf(final(g)@.len()),
            final(self).spec_block().id == BlockId(0),
            final(self).spec_block().memory@.len() == 0,
            final(self).spec_block().effects@.len() == 0,
            final(self).spec_block().offset == Offset(0),
            final(self).spec_block().min_offset == Offset(0),
            final(self).spec_block().guarded_left == Offset(0),
            final(self).spec_block().guarded_right == Offset(0),
    {
        let ghost s0 = *self;
        let ghost g0 = *g;
        let mut block = Block::new(BlockId(0));
        std::mem::swap(&mut block, &mut self.block);
        block.id = g.fresh_block_id();
        proof {
            g.lemma_extends_refl();
        }
        let ghost b1 = block;
        let mut i: usize = 0;
        while i < block.memory.len()
            invariant
                g0.wf(),
                g.wf(),
                g.extends(&g0),
                g.spec_next_block().0 == b1.id.0 + 1,
                g.spec_next_input() == g0.spec_next_input(),
                b1.id == g0.spec_next_block(),
                i <= block.memory@.len(),
                block.memory@.len() == b1.memory@.len(),
                self.addends@ == s0.addends@,
                s0.addends@.len() == b1.memory@.len(),
                s0.block.memory@ == b1.memory@,
                s0.block.min_offset == b1.min_offset,
                b1.fits(),
                b1.nodes_below(g0@.len()),
                block.id == b1.id,
                block.effects == b1.effects,
                block.offset == b1.offset,
                block.min_offset == b1.min_offset,
                block.guarded_left == b1.guarded_left,
                block.guarded_right == b1.guarded_right,
                forall|j: int| i <= j < block.memory@.len() ==> block.memory@[j] == b1.memory@[j],
                forall|j: int|
                    0 <= j < i ==> (if s0.addends@[j] != 0 {
                        block.memory@[j] matches Some(r) && r.0 < g@.len()
                            && forall|copy: spec_fn(Offset, BlockId) -> u8, input: spec_fn(InputId) -> u8|
                            #[trigger] eval(g@, r, copy, input) == s0.value_at(
                                g0@,
                                b1.min_offset.0 + j,
                                b1.id,
                                copy,
                                input,
                            )
                    } else {
                        block.memory@[j] == b1.memory@[j]
                    }),
                forall|j: int|
                    0 <= j < i && s0.addends@[j] != 0 ==> (#[trigger] block.memory@[j] matches Some(r) && finished_cell(
                        g@,
                        r,
                        g0@,
                        b1.memory@[j],
                        b1.min_offset.0 + j,
                        b1.id,
                        s0.addends@[j],
                    )),
            decreases block.memory@.len() - i,
        {
            let addend = self.addends[i];
            if addend != 0 {
                let ghost gi = *g;
                proof {
                    g.lemma_extends_refl();
                }
                let ghost off = b1.min_offset.0 + i;
                let base = match block.memory[i] {
                    Some(base) => base,
                    None => {
                        let o: i128 = block.min_offset.0 as i128 + i as i128;
                        Node::Copy(Offset(o as i64), block.id).insert(g)
                    },
                };
                let ghost ga = *g;
                proof {
                    Graph::lemma_extends_trans(&g0, &gi, &ga);
                    ga.lemma_extends(&g0);
                    assert(s0.block.cell(off) == b1.memory@[i as int]);
                    assert(s0.addend(off) == addend);
                    assert forall|copy: spec_fn(Offset, BlockId) -> u8, input: spec_fn(InputId) -> u8|
                        #[trigger] eval(ga@, base, copy, input) == match s0.block.cell(off) {
                            Some(c) => eval(g0@, c, copy, input),
                            None => copy(Offset(off as i64), b1.id) as int,
                        } by {
                        if let Some(c) = s0.block.cell(off) {
                            assert(b1.memory@[i as int] == Some(c));
                            lemma_extends_value(&g0, &ga, c);
                        }
                    }
                }
                let k = Node::Const(addend).insert(g);
                let ghost gb = *g;
                proof {
                    Graph::lemma_extends_trans(&g0, &ga, &gb);
                    gb.lemma_extends(&ga);
                }
                let r = Node::Add(base, k).insert(g);
                proof {
                    Graph::lemma_extends_trans(&g0, &gb, g);
                    Graph::lemma_extends_trans(&gi, &ga, &gb);
                    Graph::lemma_extends_trans(&gi, &gb, g);
                    g.lemma_extends(&gi);
                    gb.lemma_extends(&g0);
                    assert(gb@[base.0 as int] == ga@[base.0 as int]) by {
                        assert(gb@.take(ga@.len() as int)[base.0 as int] == ga@[base.0 as int]);
                    }
                    assert(g@.take(g@.len() as int) =~= g@);
                    assert(ideal_insert(gb@, Node::Add(base, k)) == (g@, r));
                    assert(gb@[k.0 as int] == Node::Const(addend));
                    assert(gb@.take(g0@.len() as int) == g0@);
                    assert(finished_cell(g@, r, g0@, b1.memory@[i as int], b1.min_offset.0 + i, b1.id, addend));
                    assert forall|j: int|
                        0 <= j < i && s0.addends@[j] != 0 implies (#[trigger] block.memory@[j] matches Some(q) && finished_cell(
                            g@,
                            q,
                            g0@,
                            b1.memory@[j],
                            b1.min_offset.0 + j,
                            b1.id,
                            s0.addends@[j],
                        )) by {
                        let q = block.memory@[j]->0;
                        lemma_finished_cell_extend(gi@, g@, q, g0@, b1.memory@[j], b1.min_offset.0 + j, b1.id, s0.addends@[j]);
                    }
                    assert forall|copy: spec_fn(Offset, BlockId) -> u8, input: spec_fn(InputId) -> u8|
                        #[trigger] eval(g@, r, copy, input) == s0.value_at(g0@, off, b1.id, copy, input) by {
                        lemma_eval_extend(ga@, gb@, base, copy, input);
                    }
                    assert forall|j: int| 0 <= j < i implies (if s0.addends@[j] != 0 {
                        block.memory@[j] matches Some(r) && r.0 < g@.len()
                            && forall|copy: spec_fn(Offset, BlockId) -> u8, input: spec_fn(InputId) -> u8|
                            #[trigger] eval(g@, r, copy, input) == s0.value_at(
                                g0@,
                                b1.min_offset.0 + j,
                                b1.id,
                                copy,
                                input,
                            )
                    } else {
                        block.memory@[j] == b1.memory@[j]
                    }) by {
                        if s0.addends@[j] != 0 {
                            if let Some(q) = block.memory@[j] {
                                lemma_extends_value(&gi, g, q);
                            }
                        }
                    }
                }
                block.memory.set(i, Some(r));
            }
            i = i + 1;
        }
        self.addends.clear();
        proof {
            g.lemma_extends(&g0);
            assert forall|copy: spec_fn(Offset, BlockId) -> u8, input: spec_fn(InputId) -> u8, off: int|
                i64::MIN <= off <= i64::MAX implies #[trigger] block.cell_value(g@, off, copy, input)
                    == s0.value_at(g0@, off, block.id, copy, input) by {
                let j = off - b1.min_offset.0;
                if 0 <= j < b1.memory@.len() {
                    assert(s0.addend(off) == s0.addends@[j]);
                    if s0.addends@[j] == 0 {
                        assert(block.memory@[j] == b1.memory@[j]);
                        if let Some(c) = b1.memory@[j] {
                            lemma_extends_value(&g0, g, c);
                            lemma_eval_range(g0@, c, copy, input);
                        }
                    }
                    assert(Offset((b1.min_offset.0 + j) as i64) == Offset(off as i64));
                }
            }
            assert forall|j: int| 0 <= j < block.memory@.len() implies (#[trigger] block.memory@[j] matches Some(id) ==> id.0 < g@.len()) by {
                if s0.addends@[j] == 0 {
                    assert(block.memory@[j] == b1.memory@[j]);
                }
            }
            assert forall|j: int|
                0 <= j < block.memory@.len() && s0.addend(block.min_offset.0 + j) == 0
                    implies #[trigger] block.memory@[j] == s0.spec_block().memory@[j] by {
                assert(s0.addend(block.min_offset.0 + j) == s0.addends@[j]);
            }
            assert forall|j: int|
                0 <= j < block.memory@.len() && s0.addend(block.min_offset.0 + j) != 0
                    implies (#[trigger] block.memory@[j] matches Some(r) && finished_cell(
                    g@,
                    r,
                    g0@,
                    s0.spec_block().memory@[j],
                    block.min_offset.0 + j,
                    block.id,
                    s0.addend(block.min_offset.0 + j),
                )) by {
                assert(s0.addend(block.min_offset.0 + j) == s0.addends@[j]);
            }
            assert forall|k: int| 0 <= k < block.effects@.len() implies effect_below(#[trigger] block.effects@[k], g@.len()) by {
                assert(effect_below(b1.effects@[k], g0@.len()));
                if let Effect::Output(vs) = block.effects@[k] {
                    assert forall|q: int| 0 <= q < vs@.len() implies (#[trigger] vs@[q]).0 < g@.len() by {}
                }
            }
        }
        block
    }
}


/// The cells assigned in `memory`, whose first cell is at offset `min`, with
/// their offsets, in order.
pub open spec fn assigned(memory: Seq<Option<NodeId>>, min: int) -> Seq<(int, NodeId)>
    decreases memory.len(),
{
    if memory.len() == 0 {
        Seq::empty()
    } else {
        let p = assigned(memory.drop_last(), min);
        match memory.last() {
            Some(n) => p.push((min + memory.len() - 1, n)),
            None => p,
        }
    }
}

/// The cells of `assigned(memory, min)` are the assigned cells of `memory`,
/// in increasing order of offset.
proof fn lemma_assigned(memory: Seq<Option<NodeId>>, min: int)
    ensures
        forall|i: int|
            #![trigger assigned(memory, min)[i]]
            0 <= i < assigned(memory, min).len() ==> min <= assigned(memory, min)[i].0 < min + memory.len()
                && memory[assigned(memory, min)[i].0 - min] == Some(assigned(memory, min)[i].1),
        forall|i: int, j: int|
            #![trigger assigned(memory, min)[i], assigned(memory, min)[j]]
            0 <= i < j < assigned(memory, min).len() ==> assigned(memory, min)[i].0 < assigned(memory, min)[j].0,
        forall|k: int|
            #![trigger memory[k]]
            0 <= k < memory.len() && memory[k] is Some ==> exists|i: int|
                0 <= i < assigned(memory, min).len() && #[trigger] assigned(memory, min)[i].0 == min + k,
    decreases memory.len(),
{
    if memory.len() > 0 {
        let m = memory.drop_last();
        lemma_assigned(m, min);
        let p = assigned(m, min);
        let s = assigned(memory, min);
        assert forall|i: int| 0 <= i < p.len() implies s[i] == p[i] && memory[p[i].0 - min] == m[p[i].0 - min] by {}
        assert forall|k: int| 0 <= k < memory.len() && #[trigger] memory[k] is Some implies exists|i: int|
            0 <= i < s.len() && #[trigger] s[i].0 == min + k by {
            if k < m.len() {
                assert(m[k] == memory[k]);
                let i = choose|i: int| 0 <= i < p.len() && #[trigger] p[i].0 == min + k;
                assert(s[i] == p[i]);
            } else {
                assert(s[s.len() - 1].0 == min + k);
            }
        }
    }
}

/// The cells that `iter_memory` lists come in increasing order of offset,
/// each with the node that `get_cell` gives at its offset, and each offset
/// at which `get_cell` gives a node is listed.
pub proof fn lemma_iter_memory_cells(b: &Block)
    ensures
        forall|i: int, j: int|
            #![trigger assigned(b.memory@, b.min_offset.0 as int)[i], assigned(b.memory@, b.min_offset.0 as int)[j]]
            0 <= i < j < assigned(b.memory@, b.min_offset.0 as int).len() ==> assigned(
                b.memory@,
                b.min_offset.0 as int,
            )[i].0 < assigned(b.memory@, b.min_offset.0 as int)[j].0,
        forall|i: int|
            #![trigger assigned(b.memory@, b.min_offset.0 as int)[i]]
            0 <= i < assigned(b.memory@, b.min_offset.0 as int).len() ==> b.cell(
                assigned(b.memory@, b.min_offset.0 as int)[i].0,
            ) == Some(assigned(b.memory@, b.min_offset.0 as int)[i].1),
        forall|o: int|
            #[trigger] b.cell(o) is Some ==> exists|i: int|
                0 <= i < assigned(b.memory@, b.min_offset.0 as int).len() && #[trigger] assigned(
                    b.memory@,
                    b.min_offset.0 as int,
                )[i].0 == o,
{
    let min = b.min_offset.0 as int;
    lemma_assigned(b.memory@, min);
    assert forall|o: int| #[trigger] b.cell(o) is Some implies exists|i: int|
        0 <= i < assigned(b.memory@, min).len() && #[trigger] assigned(b.memory@, min)[i].0 == o by {
        assert(b.memory@[o - min] is Some);
    }
}

impl Block {
    /// Returns the cells assigned in this block, with their offsets, in order
    /// of offset.
    pub fn iter_memory(&self) -> (cells: Vec<(Offset, NodeId)>)
        requires
            self.fits(),
        ensures
            cells@.map_values(|c: (Offset, NodeId)| (c.0.0 as int, c.1)) == assigned(
                self.memory@,
                self.min_offset.0 as int,
            ),
    {
        let mut cells: Vec<(Offset, NodeId)> = Vec::new();
        let mut i: usize = 0;
        while i < self.memory.len()
            invariant
                self.fits(),
                i <= self.memory@.len(),
                cells@.map_values(|c: (Offset, NodeId)| (c.0.0 as int, c.1)) == assigned(
                    self.memory@.take(i as int),
                    self.min_offset.0 as int,
                ),
            decreases self.memory@.len() - i,
        {
            proof {
                assert(self.memory@.take(i + 1).drop_last() =~= self.memory@.take(i as int));
            }
            match self.memory[i] {
                Some(n) => {
                    let o: i128 = self.min_offset.0 as i128 + i as i128;
                    let ghost c0 = cells@;
                    cells.push((Offset(o as i64), n));
                    proof {
                        assert(cells@.map_values(|c: (Offset, NodeId)| (c.0.0 as int, c.1)) =~= c0.map_values(
                            |c: (Offset, NodeId)| (c.0.0 as int, c.1),
                        ).push((o as int, n)));
                    }
                },
                None => {},
            }
            i = i + 1;
        }
        proof {
            assert(self.memory@.take(self.memory@.len() as int) =~= self.memory@);
        }
        cells
    }

    /// `None` when the block has an I/O effect, else whether it has guards.
    pub open spec fn purity(&self) -> Option<bool> {
        if exists|k: int| 0 <= k < self.effects@.len() && !(#[trigger] self.effects@[k] is GuardShift) {
            None
        } else {
            Some(self.effects@.len() > 0)
        }
    }

    /// Reports whether the block has no I/O effects and, if so, whether it has
    /// guards. Returns `None` when the block has I/O, `Some(false)` when the
    /// block has no I/O and no guards, and `Some(true)` when the block has no
    /// I/O and has guards.
    pub fn is_pure(&self) -> (r: Option<bool>)
        ensures
            r == self.purity(),
    {
        let mut has_guards = false;
        let mut k: usize = 0;
        while k < self.effects.len()
            invariant
                k <= self.effects@.len(),
                has_guards == (k > 0),
                forall|j: int| 0 <= j < k ==> (#[trigger] self.effects@[j]) is GuardShift,
            decreases self.effects@.len() - k,
        {
            match &self.effects[k] {
                Effect::GuardShift(_) => has_guards = true,
                _ => return None,
            }
            k = k + 1;
        }
        Some(has_guards)
    }
}


/// When every offset within the copy bound can be shifted by `delta`, every
/// `Copy` of the graph can.
pub proof fn lemma_copies_shiftable(g: &Graph, from: BlockId, delta: int)
    requires
        g.wf(),
        delta + g.spec_copy_bound() <= i64::MAX,
        i64::MIN <= delta - g.spec_copy_bound() - 1,
    ensures
        copies_shiftable(g@, from, delta, g@.len() as int),
{
    g.lemma_copy_bound();
    assert forall|i: int| 0 <= i < g@.len() && i < g@.len() implies match #[trigger] g@[i] {
        Node::Copy(o, b) => b == from ==> i64::MIN <= delta + o.0 <= i64::MAX,
        _ => true,
    } by {
        assert(copy_within(g@[i], g.spec_copy_bound()));
    }
}


impl Block {
    /// Whether the offsets that concatenating `other` after this block
    /// computes fit: those of the blocks, and those of copies whose offsets
    /// lie within the bound.
    pub open spec fn concat_fits(&self, other: &Block, copy_bound: int) -> bool {
        &&& self.can_concat(other)
        &&& self.offset.0 + copy_bound <= i64::MAX
        &&& i64::MIN <= self.offset.0 - copy_bound - 1
    }

    /// Tests `concat_fits`.
    pub(crate) fn check_concat_fits(&self, other: &Block, g: &Graph) -> (r: bool)
        requires
            g.wf(),
        ensures
            r == self.concat_fits(other, g.spec_copy_bound()),
    {
        proof {
            g.lemma_copy_bound();
        }
        let d: i128 = self.offset.0 as i128;
        let a_len: i128 = self.memory.len() as i128;
        let b_len: i128 = other.memory.len() as i128;
        let i64_min: i128 = i64::MIN as i128;
        let i64_max: i128 = i64::MAX as i128;
        if self.min_offset.0 as i128 + a_len > i64_max || other.min_offset.0 as i128 + b_len > i64_max {
            return false;
        }
        let shift = d + other.offset.0 as i128;
        let min = d + other.min_offset.0 as i128;
        let max = min + b_len;
        let gl = d + other.guarded_left.0 as i128;
        let gr = d + other.guarded_right.0 as i128;
        if shift < i64_min || shift > i64_max || min < i64_min || max > i64_max || gl < i64_min
            || gl > i64_max || gr < i64_min || gr > i64_max {
            return false;
        }
        let (lo, hi) = if a_len == 0 {
            (min, max)
        } else {
            let a_min = self.min_offset.0 as i128;
            (if min < a_min { min } else { a_min }, if max > a_min + a_len { max } else { a_min + a_len })
        };
        if hi - lo > usize::MAX as i128 {
            return false;
        }
        let bound = g.copy_bound() as i128;
        if d + bound > i64_max || d - bound - 1 < i64_min {
            return false;
        }
        let mut k: usize = 0;
        while k < other.effects.len()
            invariant
                k <= other.effects@.len(),
                d == self.offset.0,
                i64_min == i64::MIN,
                i64_max == i64::MAX,
                shift_fits(guards(other.effects@.take(k as int)), d as int),
            decreases other.effects@.len() - k,
        {
            proof {
                assert(other.effects@.take(k + 1) =~= other.effects@.take(k as int).push(other.effects@[k as int]));
                lemma_events_push(other.effects@.take(k as int), other.effects@[k as int]);
            }
            match &other.effects[k] {
                Effect::GuardShift(o) => {
                    let x = d + o.0 as i128;
                    if x < i64_min || x > i64_max {
                        proof {
                            lemma_guards_prefix(other.effects@, k + 1);
                            let gs = guards(other.effects@.take(k as int));
                            assert(guards(other.effects@)[gs.len() as int] == guards(other.effects@).take(
                                (gs.len() + 1) as int,
                            )[gs.len() as int]);
                        }
                        return false;
                    }
                },
                _ => {},
            }
            k = k + 1;
        }
        proof {
            assert(other.effects@.take(other.effects@.len() as int) =~= other.effects@);
        }
        true
    }
}


/// A block whose nodes are below `n` has its nodes below any larger bound.
pub proof fn lemma_nodes_below_mono(b: &Block, n: nat, m: nat)
    requires
        b.nodes_below(n),
        n <= m,
    ensures
        b.nodes_below(m),
{
    assert forall|k: int| 0 <= k < b.effects@.len() implies effect_below(#[trigger] b.effects@[k], m) by {
        assert(effect_below(b.effects@[k], n));
        if let Effect::Output(vs) = b.effects@[k] {
            assert forall|q: int| 0 <= q < vs@.len() implies (#[trigger] vs@[q]).0 < m by {}
        }
    }
}




/// The IDs of the inputs read by the first `n` nodes.
pub open spec fn input_keys(nodes: Seq<Node>, n: int) -> Set<u32> {
    Set::new(|j: u32| exists|i: int| 0 <= i < n && i < nodes.len() && nodes[i] == Node::Input(InputId(j)))
}

/// The first `n` nodes read at most `n` inputs.
proof fn lemma_input_keys_len(nodes: Seq<Node>, n: int)
    requires
        0 <= n <= nodes.len(),
    ensures
        input_keys(nodes, n).finite(),
        input_keys(nodes, n).len() <= n,
    decreases n,
{
    if n == 0 {
        assert(input_keys(nodes, n) =~= Set::empty());
    } else {
        lemma_input_keys_len(nodes, n - 1);
        match nodes[n - 1] {
            Node::Input(j) => {
                assert(input_keys(nodes, n) =~= input_keys(nodes, n - 1).insert(j.0));
            },
            _ => {
                assert(input_keys(nodes, n) =~= input_keys(nodes, n - 1));
            },
        }
    }
}

/// Whether the value of node `x` reads the input `i`.
pub open spec fn reads_input(nodes: Seq<Node>, x: NodeId, i: InputId) -> bool
    decreases x.0,
{
    if x.0 < nodes.len() {
        match nodes[x.0 as int] {
            Node::Input(j) => j == i,
            Node::Add(l, r) | Node::Mul(l, r) => if l.0 < x.0 && r.0 < x.0 {
                reads_input(nodes, l, i) || reads_input(nodes, r, i)
            } else {
                false
            },
            _ => false,
        }
    } else {
        false
    }
}

/// A value depends only on the inputs it reads.
proof fn lemma_eval_inputs_agree(
    nodes: Seq<Node>,
    x: NodeId,
    copy: spec_fn(Offset, BlockId) -> u8,
    in1: spec_fn(InputId) -> u8,
    in2: spec_fn(InputId) -> u8,
)
    requires
        forall|i: InputId| reads_input(nodes, x, i) ==> in1(i) == in2(i),
    ensures
        eval(nodes, x, copy, in1) == eval(nodes, x, copy, in2),
    decreases x.0,
{
    if x.0 < nodes.len() {
        match nodes[x.0 as int] {
            Node::Add(l, r) | Node::Mul(l, r) => {
                if l.0 < x.0 && r.0 < x.0 {
                    assert forall|i: InputId| reads_input(nodes, l, i) implies in1(i) == in2(i) by {
                        assert(reads_input(nodes, x, i));
                    }
                    assert forall|i: InputId| reads_input(nodes, r, i) implies in1(i) == in2(i) by {
                        assert(reads_input(nodes, x, i));
                    }
                    lemma_eval_inputs_agree(nodes, l, copy, in1, in2);
                    lemma_eval_inputs_agree(nodes, r, copy, in1, in2);
                }
            },
            Node::Input(j) => {
                assert(reads_input(nodes, x, j));
            },
            _ => {},
        }
    }
}

/// The cell values seen by a node cloned from block `from` into block `to`.
pub open spec fn renamed_copy(
    from: BlockId,
    to: BlockId,
    copy: spec_fn(Offset, BlockId) -> u8,
) -> spec_fn(Offset, BlockId) -> u8 {
    |o: Offset, b: BlockId| if b == from { copy(o, to) } else { copy(o, b) }
}

/// The inputs seen by a cloned node: each input with a fresh counterpart in
/// `map` reads what the counterpart reads.
pub open spec fn renamed_input(
    nodes: Seq<Node>,
    map: Map<u32, NodeId>,
    input: spec_fn(InputId) -> u8,
) -> spec_fn(InputId) -> u8 {
    |i: InputId|
        if map.contains_key(i.0) && map[i.0].0 < nodes.len() && nodes[map[i.0].0 as int] is Input {
            input(nodes[map[i.0].0 as int]->Input_0)
        } else {
            input(i)
        }
}

/// Whether node `r` of `nodes2` computes what node `x` of `nodes0` computes
/// with its copies from `from` reading block `to` and its inputs replaced as
/// `map` says.
pub open spec fn cloned_value(
    nodes2: Seq<Node>,
    r: NodeId,
    nodes0: Seq<Node>,
    x: NodeId,
    from: BlockId,
    to: BlockId,
    map: Map<u32, NodeId>,
) -> bool {
    forall|copy: spec_fn(Offset, BlockId) -> u8, input: spec_fn(InputId) -> u8|
        #[trigger] eval(nodes2, r, copy, input) == eval(
            nodes0,
            x,
            renamed_copy(from, to, copy),
            renamed_input(nodes2, map, input),
        )
}

/// The fresh inputs in `map` are input nodes below `n`, for keys in `keys`.
pub open spec fn inputs_map_wf(map: Map<u32, NodeId>, nodes: Seq<Node>, keys: Set<u32>) -> bool {
    forall|k: u32|
        #[trigger] map.contains_key(k) ==> map[k].0 < nodes.len() && nodes[map[k].0 as int] is Input
            && keys.contains(k)
}

/// A cloned value stays cloned when the graph and the map grow, once the
/// inputs it reads are in the map.
proof fn lemma_cloned_value_extend(
    g2: &Graph,
    g3: &Graph,
    r: NodeId,
    nodes0: Seq<Node>,
    x: NodeId,
    from: BlockId,
    to: BlockId,
    m2: Map<u32, NodeId>,
    m3: Map<u32, NodeId>,
)
    requires
        g3.extends(g2),
        r.0 < g2@.len(),
        cloned_value(g2@, r, nodes0, x, from, to, m2),
        m2 <= m3,
        forall|k: u32| #[trigger] m2.contains_key(k) ==> m2[k].0 < g2@.len(),
        forall|i: InputId| reads_input(nodes0, x, i) ==> m2.contains_key(i.0),
    ensures
        cloned_value(g3@, r, nodes0, x, from, to, m3),
{
    g3.lemma_extends(g2);
    assert forall|copy: spec_fn(Offset, BlockId) -> u8, input: spec_fn(InputId) -> u8|
        #[trigger] eval(g3@, r, copy, input) == eval(
            nodes0,
            x,
            renamed_copy(from, to, copy),
            renamed_input(g3@, m3, input),
        ) by {
        lemma_eval_extend(g2@, g3@, r, copy, input);
        assert forall|i: InputId| reads_input(nodes0, x, i) implies renamed_input(g2@, m2, input)(i)
            == renamed_input(g3@, m3, input)(i) by {
            assert(m2.contains_key(i.0));
            assert(m2.submap_of(m3));
            assert(m3.contains_key(i.0) && m3[i.0] == m2[i.0]);
            assert(g3@[m2[i.0].0 as int] == g2@[m2[i.0].0 as int]);
        }
        lemma_eval_inputs_agree(nodes0, x, renamed_copy(from, to, copy), renamed_input(g2@, m2, input), renamed_input(g3@, m3, input));
    }
}


/// The inputs read by nodes below `base` are the same in a grown graph.
proof fn lemma_input_keys_extend(g1: &Graph, g2: &Graph, base: int)
    requires
        g2.extends(g1),
        0 <= base <= g1@.len(),
    ensures
        input_keys(g2@, base) == input_keys(g1@, base),
{
    g2.lemma_extends(g1);
    assert forall|j: u32| input_keys(g2@, base).contains(j) == input_keys(g1@, base).contains(j) by {
        if input_keys(g2@, base).contains(j) {
            let i = choose|i: int| 0 <= i < base && i < g2@.len() && g2@[i] == Node::Input(InputId(j));
            assert(g2@.take(g1@.len() as int)[i] == g1@[i]);
        }
        if input_keys(g1@, base).contains(j) {
            let i = choose|i: int| 0 <= i < base && i < g1@.len() && g1@[i] == Node::Input(InputId(j));
            assert(g2@.take(g1@.len() as int)[i] == g1@[i]);
        }
    }
    assert(input_keys(g2@, base) =~= input_keys(g1@, base));
}

/// The inputs a node reads are the same in a grown graph.
proof fn lemma_eval_reads_rebase(g0: &Graph, g1: &Graph, x: NodeId)
    requires
        g1.extends(g0),
        x.0 < g0@.len(),
    ensures
        forall|i: InputId| reads_input(g1@, x, i) == reads_input(g0@, x, i),
    decreases x.0,
{
    g1.lemma_extends(g0);
    assert(g1@[x.0 as int] == g0@[x.0 as int]) by {
        assert(g1@.take(g0@.len() as int)[x.0 as int] == g0@[x.0 as int]);
    }
    match g0@[x.0 as int] {
        Node::Add(l, r) | Node::Mul(l, r) => {
            if l.0 < x.0 && r.0 < x.0 {
                lemma_eval_reads_rebase(g0, g1, l);
                lemma_eval_reads_rebase(g0, g1, r);
                assert forall|i: InputId| reads_input(g1@, x, i) == reads_input(g0@, x, i) by {
                    assert(reads_input(g1@, x, i) == (reads_input(g1@, l, i) || reads_input(g1@, r, i)));
                    assert(reads_input(g0@, x, i) == (reads_input(g0@, l, i) || reads_input(g0@, r, i)));
                }
            }
        },
        _ => {},
    }
}

/// The keys that `map2` adds to `map1` name input nodes of `nodes` numbered
/// from `lo` up to below `hi`, a different number for each key.
pub open spec fn fresh_inputs(map2: Map<u32, NodeId>, map1: Map<u32, NodeId>, nodes: Seq<Node>, lo: int, hi: int) -> bool {
    &&& forall|k: u32|
        #[trigger] map2.contains_key(k) && !map1.contains_key(k) ==> {
            &&& map2[k].0 < nodes.len()
            &&& nodes[map2[k].0 as int] is Input
            &&& lo <= nodes[map2[k].0 as int]->Input_0.0 < hi
        }
    &&& forall|k1: u32, k2: u32|
        #![trigger map2[k1], map2[k2]]
        map2.contains_key(k1) && !map1.contains_key(k1) && map2.contains_key(k2) && !map1.contains_key(k2)
            && k1 != k2 ==> nodes[map2[k1].0 as int]->Input_0 != nodes[map2[k2].0 as int]->Input_0
}

/// What cloning node `x` of `nodes0` from block `from` into block `to` built,
/// with `map1` the fresh inputs before and `map2` after, `nodes2` the nodes
/// after and `r` the result: a copy from `from` becomes that copy from `to`,
/// inserted; another copy or a constant stays itself; an input becomes its
/// fresh counterpart, made now, numbered `next`, if it had none; an addition
/// or multiplication becomes that operation on the clones of its operands.
pub open spec fn clone_shape(
    nodes2: Seq<Node>,
    r: NodeId,
    map2: Map<u32, NodeId>,
    nodes0: Seq<Node>,
    x: NodeId,
    map1: Map<u32, NodeId>,
    from: BlockId,
    to: BlockId,
    next: InputId,
) -> bool {
    match nodes0[x.0 as int] {
        Node::Copy(o, b) => if b == from {
            map2 == map1 && (nodes2, r) == after_insert(nodes0, Node::Copy(o, to))
        } else {
            r == x && nodes2 == nodes0 && map2 == map1
        },
        Node::Const(_) => r == x && nodes2 == nodes0 && map2 == map1,
        Node::Input(i) => if map1.contains_key(i.0) {
            r == map1[i.0] && nodes2 == nodes0 && map2 == map1
        } else {
            r.0 < nodes2.len() && nodes2[r.0 as int] == Node::Input(next) && map2 == map1.insert(i.0, r)
        },
        Node::Add(lhs, rhs) => {
            &&& r.0 < nodes2.len()
            &&& nodes2[r.0 as int] matches Node::Add(l, q)
            &&& l.0 < nodes2.len()
            &&& q.0 < nodes2.len()
            &&& cloned_value(nodes2, l, nodes0, lhs, from, to, map2)
            &&& cloned_value(nodes2, q, nodes0, rhs, from, to, map2)
        },
        Node::Mul(lhs, rhs) => {
            &&& r.0 < nodes2.len()
            &&& nodes2[r.0 as int] matches Node::Mul(l, q)
            &&& l.0 < nodes2.len()
            &&& q.0 < nodes2.len()
            &&& cloned_value(nodes2, l, nodes0, lhs, from, to, map2)
            &&& cloned_value(nodes2, q, nodes0, rhs, from, to, map2)
        },
    }
}

/// Whether cloning node `x` of `nodes` from block `from` into block `to`,
/// with the fresh inputs `map`, is done already and gives `r`: a copy from
/// `from` has its counterpart from `to` at `r`; another copy or a constant is
/// `r` itself; an input has `r` as its counterpart in `map`; an addition or
/// multiplication has at `r` that operation on clones of its operands that
/// are done already.
pub open spec fn clone_done(nodes: Seq<Node>, map: Map<u32, NodeId>, x: NodeId, r: NodeId, from: BlockId, to: BlockId) -> bool
    decreases x.0,
{
    if x.0 < nodes.len() {
        match nodes[x.0 as int] {
            Node::Copy(o, b) => if b == from {
                r.0 < nodes.len() && nodes[r.0 as int] == Node::Copy(o, to)
            } else {
                r == x
            },
            Node::Const(_) => r == x,
            Node::Input(i) => map.contains_key(i.0) && map[i.0] == r,
            Node::Add(lhs, rhs) => if lhs.0 < x.0 && rhs.0 < x.0 {
                &&& r.0 < nodes.len()
                &&& nodes[r.0 as int] is Add
                &&& clone_done(nodes, map, lhs, nodes[r.0 as int]->Add_0, from, to)
                &&& clone_done(nodes, map, rhs, nodes[r.0 as int]->Add_1, from, to)
            } else {
                false
            },
            Node::Mul(lhs, rhs) => if lhs.0 < x.0 && rhs.0 < x.0 {
                &&& r.0 < nodes.len()
                &&& nodes[r.0 as int] is Mul
                &&& clone_done(nodes, map, lhs, nodes[r.0 as int]->Mul_0, from, to)
                &&& clone_done(nodes, map, rhs, nodes[r.0 as int]->Mul_1, from, to)
            } else {
                false
            },
        }
    } else {
        false
    }
}

/// A finished clone stays finished when the nodes and the map grow.
proof fn lemma_clone_done_extend(
    n1: Seq<Node>,
    n2: Seq<Node>,
    m1: Map<u32, NodeId>,
    m2: Map<u32, NodeId>,
    x: NodeId,
    r: NodeId,
    from: BlockId,
    to: BlockId,
)
    requires
        clone_done(n1, m1, x, r, from, to),
        n1.len() <= n2.len(),
        n2.take(n1.len() as int) == n1,
        m1 <= m2,
    ensures
        clone_done(n2, m2, x, r, from, to),
    decreases x.0,
{
    assert(n2[x.0 as int] == n2.take(n1.len() as int)[x.0 as int]);
    match n1[x.0 as int] {
        Node::Copy(o, b) => {
            if b == from {
                assert(n2[r.0 as int] == n2.take(n1.len() as int)[r.0 as int]);
            }
        },
        Node::Input(i) => {
            assert(m2.contains_key(i.0));
        },
        Node::Add(lhs, rhs) | Node::Mul(lhs, rhs) => {
            assert(n2[r.0 as int] == n2.take(n1.len() as int)[r.0 as int]);
            let (l, q) = match n1[r.0 as int] {
                Node::Add(l, q) | Node::Mul(l, q) => (l, q),
                _ => (r, r),
            };
            lemma_clone_done_extend(n1, n2, m1, m2, lhs, l, from, to);
            lemma_clone_done_extend(n1, n2, m1, m2, rhs, q, from, to);
        },
        _ => {},
    }
}

/// Whether every input node of `nodes` is numbered below `n`.
pub open spec fn inputs_below(nodes: Seq<Node>, n: int) -> bool {
    forall|i: int| 0 <= i < nodes.len() && (#[trigger] nodes[i]) is Input ==> nodes[i]->Input_0.0 < n
}

/// Inputs numbered from `lo` up are new to nodes whose inputs are all
/// numbered below `lo`: a clone whose fresh inputs start at the input counter
/// of a graph whose inputs all came from that counter reads none of the
/// inputs that the graph reads before.
pub proof fn lemma_fresh_inputs_unread(map: Map<u32, NodeId>, nodes0: Seq<Node>, nodes1: Seq<Node>, lo: int, hi: int)
    requires
        fresh_inputs(map, Map::empty(), nodes1, lo, hi),
        inputs_below(nodes0, lo),
    ensures
        forall|k: u32| #[trigger] map.contains_key(k) ==> !nodes0.contains(nodes1[map[k].0 as int]),
{
    assert forall|k: u32| #[trigger] map.contains_key(k) implies !nodes0.contains(nodes1[map[k].0 as int]) by {
        assert(map.contains_key(k) && !Map::<u32, NodeId>::empty().contains_key(k));
        if nodes0.contains(nodes1[map[k].0 as int]) {
            let i = choose|i: int| 0 <= i < nodes0.len() && nodes0[i] == nodes1[map[k].0 as int];
            assert(nodes0[i] is Input);
        }
    }
}

/// Fresh inputs stay fresh when the nodes grow.
proof fn lemma_fresh_inputs_extend(
    map2: Map<u32, NodeId>,
    map1: Map<u32, NodeId>,
    n1: Seq<Node>,
    n2: Seq<Node>,
    lo: int,
    hi: int,
)
    requires
        fresh_inputs(map2, map1, n1, lo, hi),
        n1.len() <= n2.len(),
        n2.take(n1.len() as int) == n1,
    ensures
        fresh_inputs(map2, map1, n2, lo, hi),
{
    assert forall|k: u32| #[trigger] map2.contains_key(k) && !map1.contains_key(k) implies n2[map2[k].0 as int]
        == n1[map2[k].0 as int] by {
        assert(n2.take(n1.len() as int)[map2[k].0 as int] == n1[map2[k].0 as int]);
    }
    assert forall|k1: u32, k2: u32|
        #![trigger map2[k1], map2[k2]]
        map2.contains_key(k1) && !map1.contains_key(k1) && map2.contains_key(k2) && !map1.contains_key(k2)
            && k1 != k2 implies n2[map2[k1].0 as int]->Input_0 != n2[map2[k2].0 as int]->Input_0 by {
        assert(n2[map2[k1].0 as int] == n1[map2[k1].0 as int]);
        assert(n2[map2[k2].0 as int] == n1[map2[k2].0 as int]);
    }
}

/// Fresh inputs added in two steps, the second numbered above the first, are
/// fresh inputs added at once.
proof fn lemma_fresh_inputs_trans(
    m0: Map<u32, NodeId>,
    m1: Map<u32, NodeId>,
    m2: Map<u32, NodeId>,
    nodes: Seq<Node>,
    a: int,
    b: int,
    c: int,
)
    requires
        m0 <= m1,
        m1 <= m2,
        a <= b <= c,
        fresh_inputs(m1, m0, nodes, a, b),
        fresh_inputs(m2, m1, nodes, b, c),
    ensures
        fresh_inputs(m2, m0, nodes, a, c),
{
    assert forall|k: u32| #[trigger] m2.contains_key(k) && !m0.contains_key(k) implies {
        &&& m2[k].0 < nodes.len()
        &&& nodes[m2[k].0 as int] is Input
        &&& a <= nodes[m2[k].0 as int]->Input_0.0 < c
    } by {
        if m1.contains_key(k) {
            assert(m2[k] == m1[k]);
        }
    }
    assert forall|k1: u32, k2: u32|
        #![trigger m2[k1], m2[k2]]
        m2.contains_key(k1) && !m0.contains_key(k1) && m2.contains_key(k2) && !m0.contains_key(k2)
            && k1 != k2 implies nodes[m2[k1].0 as int]->Input_0 != nodes[m2[k2].0 as int]->Input_0 by {
        if m1.contains_key(k1) {
            assert(m2[k1] == m1[k1]);
            assert(m1.contains_key(k1) && !m0.contains_key(k1));
        } else {
            assert(m2.contains_key(k1) && !m1.contains_key(k1));
        }
        if m1.contains_key(k2) {
            assert(m2[k2] == m1[k2]);
            assert(m1.contains_key(k2) && !m0.contains_key(k2));
        } else {
            assert(m2.contains_key(k2) && !m1.contains_key(k2));
        }
    }
}

/// The step of cloning an addition or multiplication: cloning its operands
/// and inserting the operation on the clones clones it.
proof fn lemma_clone_step(
    g0: &Graph,
    g1: &Graph,
    g2: &Graph,
    g3: &Graph,
    x: NodeId,
    lhs: NodeId,
    rhs: NodeId,
    l: NodeId,
    r: NodeId,
    id: NodeId,
    from: BlockId,
    to: BlockId,
    m1: Map<u32, NodeId>,
    m2: Map<u32, NodeId>,
    is_add: bool,
)
    requires
        g0.wf(),
        x.0 < g0@.len(),
        g0@[x.0 as int] == (if is_add { Node::Add(lhs, rhs) } else { Node::Mul(lhs, rhs) }),
        lhs.0 < x.0,
        rhs.0 < x.0,
        g1.extends(g0),
        g2.extends(g1),
        g3.extends(g2),
        l.0 < g1@.len(),
        r.0 < g2@.len(),
        cloned_value(g1@, l, g0@, lhs, from, to, m1),
        forall|i: InputId| reads_input(g0@, lhs, i) ==> m1.contains_key(i.0),
        cloned_value(g2@, r, g1@, rhs, from, to, m2),
        forall|i: InputId| reads_input(g1@, rhs, i) ==> m2.contains_key(i.0),
        forall|i: InputId| reads_input(g1@, rhs, i) == reads_input(g0@, rhs, i),
        m1 <= m2,
        forall|k: u32| #[trigger] m1.contains_key(k) ==> m1[k].0 < g1@.len(),
        forall|k: u32| #[trigger] m2.contains_key(k) ==> m2[k].0 < g2@.len(),
        same_value(g3@, id, g2@, if is_add { Node::Add(l, r) } else { Node::Mul(l, r) }),
    ensures
        cloned_value(g3@, id, g0@, x, from, to, m2),
        forall|i: InputId| reads_input(g0@, x, i) ==> m2.contains_key(i.0),
        cloned_value(g3@, l, g0@, lhs, from, to, m2),
        cloned_value(g3@, r, g0@, rhs, from, to, m2),
{
    g1.lemma_extends(g0);
    g2.lemma_extends(g1);
    lemma_cloned_value_extend(g1, g2, l, g0@, lhs, from, to, m1, m2);
    lemma_cloned_value_extend(g2, g3, l, g0@, lhs, from, to, m2, m2);
    lemma_cloned_value_extend(g2, g3, r, g1@, rhs, from, to, m2, m2);
    assert forall|copy: spec_fn(Offset, BlockId) -> u8, input: spec_fn(InputId) -> u8|
        #[trigger] eval(g3@, r, copy, input) == eval(
            g0@,
            rhs,
            renamed_copy(from, to, copy),
            renamed_input(g3@, m2, input),
        ) by {
        lemma_eval_extend(g0@, g1@, rhs, renamed_copy(from, to, copy), renamed_input(g3@, m2, input));
    }
    assert forall|copy: spec_fn(Offset, BlockId) -> u8, input: spec_fn(InputId) -> u8|
        #[trigger] eval(g3@, id, copy, input) == eval(
            g0@,
            x,
            renamed_copy(from, to, copy),
            renamed_input(g3@, m2, input),
        ) by {
        let rc = renamed_copy(from, to, copy);
        assert(eval(g3@, id, copy, input) == eval_node(g2@, if is_add { Node::Add(l, r) } else { Node::Mul(l, r) }, copy, input));
        lemma_eval_extend(g0@, g1@, rhs, rc, renamed_input(g2@, m2, input));
        lemma_eval_wf(g0, x, rc, renamed_input(g2@, m2, input));
        assert forall|i: InputId| reads_input(g0@, x, i) implies renamed_input(g2@, m2, input)(i)
            == renamed_input(g3@, m2, input)(i) by {
            if m2.contains_key(i.0) {
                g3.lemma_extends(g2);
                assert(g3@.take(g2@.len() as int)[m2[i.0].0 as int] == g2@[m2[i.0].0 as int]);
            }
        }
        assert forall|i: InputId| reads_input(g0@, x, i) implies m2.contains_key(i.0) by {
            if reads_input(g0@, lhs, i) {
                assert(m1.contains_key(i.0));
            } else {
                assert(reads_input(g0@, rhs, i));
            }
        }
        lemma_eval_inputs_agree(g0@, x, rc, renamed_input(g2@, m2, input), renamed_input(g3@, m2, input));
    }
    assert forall|i: InputId| reads_input(g0@, x, i) implies m2.contains_key(i.0) by {
        if reads_input(g0@, lhs, i) {
            assert(m1.contains_key(i.0));
        } else {
            assert(reads_input(g0@, rhs, i));
        }
    }
}

impl NodeId {
    /// Clones the node below `base`: its copies from `from` read `to`, and
    /// each input it reads gets a fresh counterpart, the same one for the
    /// same input, as `inputs` records.
    #[verifier::rlimit(60)]
    fn clone_node(
        self,
        from: BlockId,
        to: BlockId,
        inputs: &mut HashMap<u32, NodeId>,
        g: &mut Graph,
        Ghost(base): Ghost<int>,
    ) -> (r: NodeId)
        requires
            old(g).wf(),
            self.0 < base <= old(g)@.len(),
            input_keys(old(g)@, base).finite(),
            inputs_map_wf(old(inputs)@, old(g)@, input_keys(old(g)@, base)),
            old(g).spec_next_input().0 + input_keys(old(g)@, base).len() - old(inputs)@.dom().len() <= u32::MAX,
        ensures
            final(g).wf(),
            final(g).extends(old(g)),
            final(g).spec_next_block() == old(g).spec_next_block(),
            final(g).spec_next_input().0 - old(g).spec_next_input().0 == final(inputs)@.dom().len() - old(
                inputs,
            )@.dom().len(),
            old(inputs)@ <= final(inputs)@,
            inputs_map_wf(final(inputs)@, final(g)@, input_keys(old(g)@, base)),
            r.0 < final(g)@.len(),
            cloned_value(final(g)@, r, old(g)@, self, from, to, final(inputs)@),
            forall|i: InputId| reads_input(old(g)@, self, i) ==> final(inputs)@.contains_key(i.0),
            old(g).spec_next_input().0 <= final(g).spec_next_input().0,
            fresh_inputs(
                final(inputs)@,
                old(inputs)@,
                final(g)@,
                old(g).spec_next_input().0 as int,
                final(g).spec_next_input().0 as int,
            ),
            clone_shape(final(g)@, r, final(inputs)@, old(g)@, self, old(inputs)@, from, to, old(g).spec_next_input()),
            clone_done(final(g)@, final(inputs)@, self, r, from, to),
            forall|r0: NodeId|
                #[trigger] clone_done(old(g)@, old(inputs)@, self, r0, from, to) ==> r == r0 && *final(g) == *old(g)
                    && final(inputs)@ == old(inputs)@,
        decreases self.0,
    {
        broadcast use vstd::std_specs::hash::group_hash_axioms;
        let ghost g0 = *g;
        let ghost m0 = inputs@;
        let ghost keys = input_keys(g0@, base);
        proof {
            g.lemma_wf_nodes();
            g.lemma_extends_refl();
            vstd::set_lib::lemma_len_subset(m0.dom(), keys);
            assert(m0 <= m0);
        }
        let node = *g.index(self);
        match node {
            Node::Copy(offset, block) => {
                if block == from {
                    let r = Node::Copy(offset, to).insert_ideal(g);
                    proof {
                        g.lemma_extends(&g0);
                        assert forall|k: u32| #[trigger] inputs@.contains_key(k) implies inputs@[k].0 < g@.len()
                            && g@[inputs@[k].0 as int] is Input && keys.contains(k) by {
                            assert(g@.take(g0@.len() as int)[inputs@[k].0 as int] == g0@[inputs@[k].0 as int]);
                        }
                        assert(g@[self.0 as int] == g0@[self.0 as int]) by {
                            assert(g@.take(g0@.len() as int)[self.0 as int] == g0@[self.0 as int]);
                        }
                        assert(clone_done(g@, inputs@, self, r, from, to));
                        assert forall|r0: NodeId| #[trigger] clone_done(g0@, m0, self, r0, from, to) implies r == r0
                            && *g == g0 && inputs@ == m0 by {
                            assert(g0@[r0.0 as int] == Node::Copy(offset, to));
                            assert(g0@.contains(Node::Copy(offset, to)));
                        }
                    }
                    r
                } else {
                    self
                }
            },
            Node::Const(_) => self,
            Node::Input(input) => {
                match inputs.get(&input.0) {
                    Some(id) => {
                        let id = *id;
                        proof {
                            assert(m0.contains_key(input.0));
                            assert(clone_done(g@, inputs@, self, id, from, to));
                        }
                        id
                    },
                    None => {
                        proof {
                            assert(keys.contains(input.0));
                            assert(!m0.dom().contains(input.0));
                            vstd::set_lib::lemma_len_subset(m0.dom().insert(input.0), keys);
                        }
                        let id = g.fresh_input();
                        inputs.insert(input.0, id);
                        proof {
                            g.lemma_extends(&g0);
                            assert(inputs@.dom() =~= m0.dom().insert(input.0));
                            assert forall|k: u32| #[trigger] inputs@.contains_key(k) implies inputs@[k].0 < g@.len()
                                && g@[inputs@[k].0 as int] is Input && keys.contains(k) by {
                                if k != input.0 {
                                    assert(g@.take(g0@.len() as int)[inputs@[k].0 as int] == g0@[inputs@[k].0 as int]);
                                }
                            }
                            assert(g@[self.0 as int] == g0@[self.0 as int]) by {
                                assert(g@.take(g0@.len() as int)[self.0 as int] == g0@[self.0 as int]);
                            }
                            assert(clone_done(g@, inputs@, self, id, from, to));
                            assert forall|k1: u32, k2: u32|
                                #![trigger inputs@[k1], inputs@[k2]]
                                inputs@.contains_key(k1) && !m0.contains_key(k1) && inputs@.contains_key(k2)
                                    && !m0.contains_key(k2) && k1 != k2 implies g@[inputs@[k1].0 as int]->Input_0
                                    != g@[inputs@[k2].0 as int]->Input_0 by {
                                assert(k1 == input.0 && k2 == input.0);
                            }
                        }
                        id
                    },
                }
            },
            Node::Add(lhs, rhs) => {
                proof {
                    assert(crate::egraph::children_below(g0@[self.0 as int], self.0 as int));
                }
                let l = lhs.clone_node(from, to, inputs, g, Ghost(base));
                let ghost g1 = *g;
                let ghost m1 = inputs@;
                proof {
                    g1.lemma_extends(&g0);
                    lemma_input_keys_extend(&g0, &g1, base);
                    assert(g1@[rhs.0 as int] == g0@[rhs.0 as int]) by {
                        assert(g1@.take(g0@.len() as int)[rhs.0 as int] == g0@[rhs.0 as int]);
                    }
                    vstd::set_lib::lemma_len_subset(m1.dom(), keys);
                }
                let r = rhs.clone_node(from, to, inputs, g, Ghost(base));
                let ghost g2 = *g;
                let ghost m2 = inputs@;
                proof {
                    Graph::lemma_extends_trans(&g0, &g1, &g2);
                    g2.lemma_extends(&g1);
                    lemma_input_keys_extend(&g1, &g2, base);
                    lemma_eval_reads_rebase(&g0, &g1, rhs);
                }
                let id = Node::Add(l, r).insert_ideal(g);
                proof {
                    Graph::lemma_extends_trans(&g0, &g2, g);
                    g.lemma_extends(&g2);
                    lemma_clone_step(&g0, &g1, &g2, g, self, lhs, rhs, l, r, id, from, to, m1, m2, true);
                    vstd::map_lib::lemma_submap_of_trans(m0, m1, m2);
                    Graph::lemma_extends_trans(&g1, &g2, g);
                    g.lemma_extends(&g0);
                    g.lemma_extends(&g1);
                    g.lemma_extends(&g2);
                    assert(g@[self.0 as int] == g0@[self.0 as int]) by {
                        assert(g@.take(g0@.len() as int)[self.0 as int] == g0@[self.0 as int]);
                    }
                    lemma_clone_done_extend(g1@, g@, m1, m2, lhs, l, from, to);
                    lemma_clone_done_extend(g2@, g@, m2, m2, rhs, r, from, to);
                    assert(clone_done(g@, m2, self, id, from, to));
                    assert forall|r0: NodeId| #[trigger] clone_done(g0@, m0, self, r0, from, to) implies id == r0
                        && *g == g0 && m2 == m0 by {
                        let q = g0@[r0.0 as int];
                        assert(clone_done(g0@, m0, lhs, q->Add_0, from, to));
                        assert(clone_done(g1@, m1, rhs, q->Add_1, from, to));
                        assert(g2@[r0.0 as int] == Node::Add(l, r));
                        assert(g2@.contains(Node::Add(l, r)));
                    }
                    lemma_fresh_inputs_extend(m1, m0, g1@, g2@, g0.spec_next_input().0 as int, g1.spec_next_input().0 as int);
                    lemma_fresh_inputs_extend(m1, m0, g2@, g@, g0.spec_next_input().0 as int, g1.spec_next_input().0 as int);
                    lemma_fresh_inputs_extend(m2, m1, g2@, g@, g1.spec_next_input().0 as int, g2.spec_next_input().0 as int);
                    lemma_fresh_inputs_trans(m0, m1, m2, g@, g0.spec_next_input().0 as int, g1.spec_next_input().0 as int, g2.spec_next_input().0 as int);
                }
                id
            },
            Node::Mul(lhs, rhs) => {
                proof {
                    assert(crate::egraph::children_below(g0@[self.0 as int], self.0 as int));
                }
                let l = lhs.clone_node(from, to, inputs, g, Ghost(base));
                let ghost g1 = *g;
                let ghost m1 = inputs@;
                proof {
                    g1.lemma_extends(&g0);
                    lemma_input_keys_extend(&g0, &g1, base);
                    assert(g1@[rhs.0 as int] == g0@[rhs.0 as int]) by {
                        assert(g1@.take(g0@.len() as int)[rhs.0 as int] == g0@[rhs.0 as int]);
                    }
                    vstd::set_lib::lemma_len_subset(m1.dom(), keys);
                }
                let r = rhs.clone_node(from, to, inputs, g, Ghost(base));
                let ghost g2 = *g;
                let ghost m2 = inputs@;
                proof {
                    Graph::lemma_extends_trans(&g0, &g1, &g2);
                    g2.lemma_extends(&g1);
                    lemma_input_keys_extend(&g1, &g2, base);
                    lemma_eval_reads_rebase(&g0, &g1, rhs);
                }
                let id = Node::Mul(l, r).insert_ideal(g);
                proof {
                    Graph::lemma_extends_trans(&g0, &g2, g);
                    g.lemma_extends(&g2);
                    lemma_clone_step(&g0, &g1, &g2, g, self, lhs, rhs, l, r, id, from, to, m1, m2, false);
                    vstd::map_lib::lemma_submap_of_trans(m0, m1, m2);
                    Graph::lemma_extends_trans(&g1, &g2, g);
                    g.lemma_extends(&g0);
                    g.lemma_extends(&g1);
                    g.lemma_extends(&g2);
                    assert(g@[self.0 as int] == g0@[self.0 as int]) by {
                        assert(g@.take(g0@.len() as int)[self.0 as int] == g0@[self.0 as int]);
                    }
                    lemma_clone_done_extend(g1@, g@, m1, m2, lhs, l, from, to);
                    lemma_clone_done_extend(g2@, g@, m2, m2, rhs, r, from, to);
                    assert(clone_done(g@, m2, self, id, from, to));
                    assert forall|r0: NodeId| #[trigger] clone_done(g0@, m0, self, r0, from, to) implies id == r0
                        && *g == g0 && m2 == m0 by {
                        let q = g0@[r0.0 as int];
                        assert(clone_done(g0@, m0, lhs, q->Mul_0, from, to));
                        assert(clone_done(g1@, m1, rhs, q->Mul_1, from, to));
                        assert(g2@[r0.0 as int] == Node::Mul(l, r));
                        assert(g2@.contains(Node::Mul(l, r)));
                    }
                    lemma_fresh_inputs_extend(m1, m0, g1@, g2@, g0.spec_next_input().0 as int, g1.spec_next_input().0 as int);
                    lemma_fresh_inputs_extend(m1, m0, g2@, g@, g0.spec_next_input().0 as int, g1.spec_next_input().0 as int);
                    lemma_fresh_inputs_extend(m2, m1, g2@, g@, g1.spec_next_input().0 as int, g2.spec_next_input().0 as int);
                    lemma_fresh_inputs_trans(m0, m1, m2, g@, g0.spec_next_input().0 as int, g1.spec_next_input().0 as int, g2.spec_next_input().0 as int);
                }
                id
            },
        }
    }
}


impl NodeId {
    /// Makes a copy of this node, but with its copies relative to the given
    /// block and with fresh inputs, which `inputs` maps the IDs of the old
    /// inputs to. Calling it again with the graph and the map that a call
    /// left gives the same node and changes nothing.
    pub fn clone_in_block(
        self,
        block_from: BlockId,
        block_to: BlockId,
        inputs: &mut HashMap<u32, NodeId>,
        g: &mut Graph,
    ) -> (r: NodeId)
        requires
            old(g).wf(),
            (self.0 as int) < old(g)@.len(),
            inputs_map_wf(old(inputs)@, old(g)@, input_keys(old(g)@, old(g)@.len() as int)),
            old(g).spec_next_input().0 + old(g)@.len() <= u32::MAX,
        ensures
            final(g).wf(),
            final(g).extends(old(g)),
            final(g).spec_next_block() == old(g).spec_next_block(),
            final(g).spec_next_input().0 - old(g).spec_next_input().0 == final(inputs)@.dom().len() - old(
                inputs,
            )@.dom().len(),
            old(inputs)@ <= final(inputs)@,
            inputs_map_wf(final(inputs)@, final(g)@, input_keys(old(g)@, old(g)@.len() as int)),
            r.0 < final(g)@.len(),
            cloned_value(final(g)@, r, old(g)@, self, block_from, block_to, final(inputs)@),
            forall|i: InputId| reads_input(old(g)@, self, i) ==> final(inputs)@.contains_key(i.0),
            fresh_inputs(
                final(inputs)@,
                old(inputs)@,
                final(g)@,
                old(g).spec_next_input().0 as int,
                final(g).spec_next_input().0 as int,
            ),
            clone_shape(
                final(g)@,
                r,
                final(inputs)@,
                old(g)@,
                self,
                old(inputs)@,
                block_from,
                block_to,
                old(g).spec_next_input(),
            ),
            clone_done(final(g)@, final(inputs)@, self, r, block_from, block_to),
            forall|r0: NodeId|
                #[trigger] clone_done(old(g)@, old(inputs)@, self, r0, block_from, block_to) ==> r == r0 && *final(g)
                    == *old(g) && final(inputs)@ == old(inputs)@,
    {
        proof {
            lemma_input_keys_len(g@, g@.len() as int);
            vstd::set_lib::lemma_len_subset(inputs@.dom(), input_keys(g@, g@.len() as int));
        }
        self.clone_node(block_from, block_to, inputs, g, Ghost(g@.len() as int))
    }
}

/// Whether effect `e2` is `e1` cloned: its values cloned as
/// `cloned_value` says.
pub open spec fn cloned_effect(
    e2: Effect,
    e1: Effect,
    nodes2: Seq<Node>,
    nodes0: Seq<Node>,
    from: BlockId,
    to: BlockId,
    map: Map<u32, NodeId>,
) -> bool {
    match (e1, e2) {
        (Effect::Output(xs), Effect::Output(ys)) => xs@.len() == ys@.len() && forall|j: int|
            0 <= j < xs@.len() ==> (#[trigger] ys@[j]).0 < nodes2.len() && cloned_value(
                nodes2,
                ys@[j],
                nodes0,
                xs@[j],
                from,
                to,
                map,
            ),
        (Effect::Input(x), Effect::Input(y)) => y.0 < nodes2.len() && cloned_value(nodes2, y, nodes0, x, from, to, map),
        (Effect::GuardShift(x), Effect::GuardShift(y)) => x == y,
        _ => false,
    }
}

/// The inputs read by the values of an effect.
pub open spec fn effect_reads(e: Effect, nodes: Seq<Node>, i: InputId) -> bool {
    match e {
        Effect::Output(xs) => exists|j: int| 0 <= j < xs@.len() && reads_input(nodes, #[trigger] xs@[j], i),
        Effect::Input(x) => reads_input(nodes, x, i),
        Effect::GuardShift(_) => false,
    }
}

/// A cloned effect stays cloned when the graph and the map grow.
proof fn lemma_cloned_effect_extend(
    g2: &Graph,
    g3: &Graph,
    e2: Effect,
    e1: Effect,
    nodes0: Seq<Node>,
    from: BlockId,
    to: BlockId,
    m2: Map<u32, NodeId>,
    m3: Map<u32, NodeId>,
)
    requires
        g3.extends(g2),
        cloned_effect(e2, e1, g2@, nodes0, from, to, m2),
        m2 <= m3,
        forall|k: u32| #[trigger] m2.contains_key(k) ==> m2[k].0 < g2@.len(),
        forall|i: InputId| effect_reads(e1, nodes0, i) ==> m2.contains_key(i.0),
    ensures
        cloned_effect(e2, e1, g3@, nodes0, from, to, m3),
{
    g3.lemma_extends(g2);
    match (e1, e2) {
        (Effect::Output(xs), Effect::Output(ys)) => {
            assert forall|j: int| 0 <= j < xs@.len() implies (#[trigger] ys@[j]).0 < g3@.len() && cloned_value(
                g3@,
                ys@[j],
                nodes0,
                xs@[j],
                from,
                to,
                m3,
            ) by {
                assert forall|i: InputId| reads_input(nodes0, xs@[j], i) implies m2.contains_key(i.0) by {
                    assert(effect_reads(e1, nodes0, i));
                }
                lemma_cloned_value_extend(g2, g3, ys@[j], nodes0, xs@[j], from, to, m2, m3);
            }
        },
        (Effect::Input(x), Effect::Input(y)) => {
            assert forall|i: InputId| reads_input(nodes0, x, i) implies m2.contains_key(i.0) by {
                assert(effect_reads(e1, nodes0, i));
            }
            lemma_cloned_value_extend(g2, g3, y, nodes0, x, from, to, m2, m3);
        },
        _ => {},
    }
}

/// The inputs an effect reads are the same in a grown graph.
proof fn lemma_effect_reads_rebase(g0: &Graph, g1: &Graph, e: Effect, i: InputId)
    requires
        g1.extends(g0),
        effect_below(e, g0@.len()),
    ensures
        effect_reads(e, g1@, i) == effect_reads(e, g0@, i),
{
    match e {
        Effect::Output(xs) => {
            assert forall|j: int| 0 <= j < xs@.len() implies reads_input(g1@, #[trigger] xs@[j], i) == reads_input(g0@, xs@[j], i) by {
                lemma_eval_reads_rebase(g0, g1, xs@[j]);
            }
        },
        Effect::Input(x) => {
            lemma_eval_reads_rebase(g0, g1, x);
        },
        _ => {},
    }
}

/// An effect cloned over a later graph is also cloned over an earlier one.
proof fn lemma_cloned_effect_rebase(
    g0: &Graph,
    gk: &Graph,
    nodes2: Seq<Node>,
    e2: Effect,
    e1: Effect,
    from: BlockId,
    to: BlockId,
    map: Map<u32, NodeId>,
)
    requires
        gk.extends(g0),
        effect_below(e1, g0@.len()),
        cloned_effect(e2, e1, nodes2, gk@, from, to, map),
    ensures
        cloned_effect(e2, e1, nodes2, g0@, from, to, map),
{
    gk.lemma_extends(g0);
    match (e1, e2) {
        (Effect::Output(xs), Effect::Output(ys)) => {
            assert forall|j: int| 0 <= j < xs@.len() implies (#[trigger] ys@[j]).0 < nodes2.len() && cloned_value(
                nodes2,
                ys@[j],
                g0@,
                xs@[j],
                from,
                to,
                map,
            ) by {
                assert forall|copy: spec_fn(Offset, BlockId) -> u8, input: spec_fn(InputId) -> u8|
                    #[trigger] eval(nodes2, ys@[j], copy, input) == eval(
                        g0@,
                        xs@[j],
                        renamed_copy(from, to, copy),
                        renamed_input(nodes2, map, input),
                    ) by {
                    lemma_eval_extend(g0@, gk@, xs@[j], renamed_copy(from, to, copy), renamed_input(nodes2, map, input));
                }
            }
        },
        (Effect::Input(x), Effect::Input(y)) => {
            assert forall|copy: spec_fn(Offset, BlockId) -> u8, input: spec_fn(InputId) -> u8|
                #[trigger] eval(nodes2, y, copy, input) == eval(
                    g0@,
                    x,
                    renamed_copy(from, to, copy),
                    renamed_input(nodes2, map, input),
                ) by {
                lemma_eval_extend(g0@, gk@, x, renamed_copy(from, to, copy), renamed_input(nodes2, map, input));
            }
        },
        _ => {},
    }
}

/// Clones the effect, for nodes below `base`.
fn clone_effect(
    e: &Effect,
    from: BlockId,
    to: BlockId,
    inputs: &mut HashMap<u32, NodeId>,
    g: &mut Graph,
    Ghost(base): Ghost<int>,
) -> (r: Effect)
    requires
        old(g).wf(),
        0 <= base <= old(g)@.len(),
        effect_below(*e, base as nat),
        input_keys(old(g)@, base).finite(),
        inputs_map_wf(old(inputs)@, old(g)@, input_keys(old(g)@, base)),
        old(g).spec_next_input().0 + input_keys(old(g)@, base).len() - old(inputs)@.dom().len() <= u32::MAX,
    ensures
        final(g).wf(),
        final(g).extends(old(g)),
        final(g).spec_next_block() == old(g).spec_next_block(),
        final(g).spec_next_input().0 - old(g).spec_next_input().0 == final(inputs)@.dom().len() - old(
            inputs,
        )@.dom().len(),
        old(inputs)@ <= final(inputs)@,
        inputs_map_wf(final(inputs)@, final(g)@, input_keys(old(g)@, base)),
        cloned_effect(r, *e, final(g)@, old(g)@, from, to, final(inputs)@),
        forall|i: InputId| effect_reads(*e, old(g)@, i) ==> final(inputs)@.contains_key(i.0),
        old(g).spec_next_input().0 <= final(g).spec_next_input().0,
        fresh_inputs(
            final(inputs)@,
            old(inputs)@,
            final(g)@,
            old(g).spec_next_input().0 as int,
            final(g).spec_next_input().0 as int,
        ),
{
    let ghost g0 = *g;
    let ghost m0 = inputs@;
    let ghost keys = input_keys(g0@, base);
    proof {
        g.lemma_extends_refl();
        assert(m0 <= m0);
    }
    match e {
        Effect::Output(values) => {
            proof {
                assert(effect_below(*e, base as nat));
                assert forall|j: int| 0 <= j < values@.len() implies (#[trigger] values@[j]).0 < base by {}
            }
            let mut out: Vec<NodeId> = Vec::new();
            let mut k: usize = 0;
            while k < values.len()
                invariant
                    g0.wf(),
                    g.wf(),
                    g.extends(&g0),
                    g.spec_next_block() == g0.spec_next_block(),
                    g.spec_next_input().0 - g0.spec_next_input().0 == inputs@.dom().len() - m0.dom().len(),
                    m0 <= inputs@,
                    0 <= base <= g0@.len(),
                    keys == input_keys(g0@, base),
                    keys.finite(),
                    inputs_map_wf(inputs@, g@, keys),
                    g0.spec_next_input().0 + keys.len() - m0.dom().len() <= u32::MAX,
                    forall|j: int| 0 <= j < values@.len() ==> (#[trigger] values@[j]).0 < base,
                    k <= values@.len(),
                    out@.len() == k,
                    forall|j: int|
                        0 <= j < k ==> (#[trigger] out@[j]).0 < g@.len() && cloned_value(
                            g@,
                            out@[j],
                            g0@,
                            values@[j],
                            from,
                            to,
                            inputs@,
                        ),
                    forall|j: int, i: InputId| 0 <= j < k && #[trigger] reads_input(g0@, values@[j], i) ==> inputs@.contains_key(i.0),
                    g0.spec_next_input().0 <= g.spec_next_input().0,
                    fresh_inputs(inputs@, m0, g@, g0.spec_next_input().0 as int, g.spec_next_input().0 as int),
                    inputs_map_wf(m0, g0@, keys),
                decreases values@.len() - k,
            {
                let ghost gk = *g;
                let ghost mk = inputs@;
                proof {
                    g.lemma_extends(&g0);
                    lemma_input_keys_extend(&g0, g, base);
                    vstd::set_lib::lemma_len_subset(mk.dom(), keys);
                    vstd::set_lib::lemma_len_subset(m0.dom(), keys);
                    vstd::set_lib::lemma_len_subset(m0.dom(), mk.dom());
                }
                let r = values[k].clone_node(from, to, inputs, g, Ghost(base));
                proof {
                    g.lemma_extends(&gk);
                    Graph::lemma_extends_trans(&g0, &gk, g);
                    vstd::map_lib::lemma_submap_of_trans(m0, mk, inputs@);
                    lemma_fresh_inputs_extend(mk, m0, gk@, g@, g0.spec_next_input().0 as int, gk.spec_next_input().0 as int);
                    lemma_fresh_inputs_trans(m0, mk, inputs@, g@, g0.spec_next_input().0 as int, gk.spec_next_input().0 as int, g.spec_next_input().0 as int);
                    lemma_eval_reads_rebase(&g0, &gk, values@[k as int]);
                    assert forall|copy: spec_fn(Offset, BlockId) -> u8, input: spec_fn(InputId) -> u8|
                        #[trigger] eval(g@, r, copy, input) == eval(
                            g0@,
                            values@[k as int],
                            renamed_copy(from, to, copy),
                            renamed_input(g@, inputs@, input),
                        ) by {
                        gk.lemma_extends(&g0);
                        lemma_eval_extend(g0@, gk@, values@[k as int], renamed_copy(from, to, copy), renamed_input(g@, inputs@, input));
                    }
                    assert forall|j: int| 0 <= j < k implies (#[trigger] out@[j]).0 < g@.len() && cloned_value(
                        g@,
                        out@[j],
                        g0@,
                        values@[j],
                        from,
                        to,
                        inputs@,
                    ) by {
                        assert forall|i: InputId| reads_input(g0@, values@[j], i) implies mk.contains_key(i.0) by {}
                        lemma_cloned_value_extend(&gk, g, out@[j], g0@, values@[j], from, to, mk, inputs@);
                    }
                    assert forall|j: int, i: InputId| 0 <= j < k + 1 && #[trigger] reads_input(g0@, values@[j], i) implies inputs@.contains_key(i.0) by {
                        if j < k {
                            assert(mk.contains_key(i.0));
                        }
                    }
                }
                out.push(r);
                k = k + 1;
            }
            proof {
                assert forall|i: InputId| effect_reads(*e, g0@, i) implies inputs@.contains_key(i.0) by {
                    let j = choose|j: int| 0 <= j < values@.len() && #[trigger] reads_input(g0@, values@[j], i);
                }
            }
            Effect::Output(out)
        },
        Effect::Input(x) => {
            proof {
                lemma_input_keys_len(g@, base);
                vstd::set_lib::lemma_len_subset(inputs@.dom(), keys);
            }
            let r = x.clone_node(from, to, inputs, g, Ghost(base));
            Effect::Input(r)
        },
        Effect::GuardShift(o) => Effect::GuardShift(*o),
    }
}


impl Effect {
    /// Clones this effect, making its copies be relative to the given block and
    /// generating fresh inputs.
    pub fn clone_in_block(
        &self,
        block_from: BlockId,
        block_to: BlockId,
        inputs: &mut HashMap<u32, NodeId>,
        g: &mut Graph,
    ) -> (r: Effect)
        requires
            old(g).wf(),
            effect_below(*self, old(g)@.len()),
            inputs_map_wf(old(inputs)@, old(g)@, input_keys(old(g)@, old(g)@.len() as int)),
            old(g).spec_next_input().0 + old(g)@.len() <= u32::MAX,
        ensures
            final(g).wf(),
            final(g).extends(old(g)),
            final(g).spec_next_block() == old(g).spec_next_block(),
            final(g).spec_next_input().0 - old(g).spec_next_input().0 == final(inputs)@.dom().len() - old(
                inputs,
            )@.dom().len(),
            old(inputs)@ <= final(inputs)@,
            inputs_map_wf(final(inputs)@, final(g)@, input_keys(old(g)@, old(g)@.len() as int)),
            cloned_effect(r, *self, final(g)@, old(g)@, block_from, block_to, final(inputs)@),
            forall|i: InputId| effect_reads(*self, old(g)@, i) ==> final(inputs)@.contains_key(i.0),
            fresh_inputs(
                final(inputs)@,
                old(inputs)@,
                final(g)@,
                old(g).spec_next_input().0 as int,
                final(g).spec_next_input().0 as int,
            ),
    {
        proof {
            lemma_input_keys_len(g@, g@.len() as int);
            vstd::set_lib::lemma_len_subset(inputs@.dom(), input_keys(g@, g@.len() as int));
        }
        clone_effect(self, block_from, block_to, inputs, g, Ghost(g@.len() as int))
    }
}

/// Whether `b2` is `b1` cloned from its block into block `b2.id`, with the
/// fresh inputs `map` records.
pub open spec fn cloned_block(b2: &Block, b1: &Block, nodes2: Seq<Node>, nodes0: Seq<Node>, map: Map<u32, NodeId>) -> bool {
    &&& b2.offset == b1.offset
    &&& b2.min_offset == b1.min_offset
    &&& b2.guarded_left == b1.guarded_left
    &&& b2.guarded_right == b1.guarded_right
    &&& b2.memory@.len() == b1.memory@.len()
    &&& forall|k: int|
        0 <= k < b1.memory@.len() ==> match (#[trigger] b1.memory@[k], b2.memory@[k]) {
            (None, None) => true,
            (Some(x), Some(y)) => y.0 < nodes2.len() && cloned_value(nodes2, y, nodes0, x, b1.id, b2.id, map),
            _ => false,
        }
    &&& b2.effects@.len() == b1.effects@.len()
    &&& forall|k: int|
        0 <= k < b1.effects@.len() ==> cloned_effect(#[trigger] b2.effects@[k], b1.effects@[k], nodes2, nodes0, b1.id, b2.id, map)
}

/// Whether a value that block `b` stores or an effect of `b` reads input `i`.
pub open spec fn block_reads(b: &Block, nodes: Seq<Node>, i: InputId) -> bool {
    ||| exists|k: int|
        0 <= k < b.memory@.len() && (#[trigger] b.memory@[k]) is Some && reads_input(nodes, b.memory@[k]->0, i)
    ||| exists|k: int| 0 <= k < b.effects@.len() && effect_reads(#[trigger] b.effects@[k], nodes, i)
}

impl Block {
    /// Clones this block, making its copies be relative to a fresh block and
    /// generating fresh inputs.
    #[verifier::rlimit(60)]
    pub fn clone_fresh(&self, g: &mut Graph) -> (b: Block)
        requires
            old(g).wf(),
            self.nodes_below(old(g)@.len()),
            old(g).spec_next_block().0 < u32::MAX,
            old(g).spec_next_input().0 + old(g)@.len() <= u32::MAX,
        ensures
            final(g).wf(),
            final(g).extends(old(g)),
            final(g).spec_next_block().0 == old(g).spec_next_block().0 + 1,
            b.id == old(g).spec_next_block(),
            b.nodes_below(final(g)@.len()),
            exists|map: Map<u32, NodeId>|
                #[trigger] inputs_map_wf(map, final(g)@, input_keys(old(g)@, old(g)@.len() as int))
                && cloned_block(&b, self, final(g)@, old(g)@, map) && final(g).spec_next_input().0
                == old(g).spec_next_input().0 + map.dom().len()
                && (forall|i: InputId| block_reads(self, old(g)@, i) ==> map.contains_key(i.0))
                && fresh_inputs(
                    map,
                    Map::empty(),
                    final(g)@,
                    old(g).spec_next_input().0 as int,
                    final(g).spec_next_input().0 as int,
                ),
    {
        broadcast use vstd::std_specs::hash::group_hash_axioms;
        let id = g.fresh_block_id();
        let ghost g0 = *g;
        let ghost base = g0@.len() as int;
        let ghost keys = input_keys(g0@, base);
        let mut inputs: HashMap<u32, NodeId> = HashMap::new();
        proof {
            g.lemma_extends_refl();
            lemma_input_keys_len(g0@, base);
            assert(inputs@.dom() =~= Set::empty());
        }
        let mut memory: Vec<Option<NodeId>> = Vec::new();
        let mut k: usize = 0;
        while k < self.memory.len()
            invariant
                g0.wf(),
                g.wf(),
                g.extends(&g0),
                g.spec_next_block() == g0.spec_next_block(),
                g0.spec_next_block().0 == id.0 + 1,
                g.spec_next_input().0 - g0.spec_next_input().0 == inputs@.dom().len(),
                base == g0@.len(),
                keys == input_keys(g0@, base),
                keys.finite(),
                keys.len() <= base,
                g0.spec_next_input().0 + base <= u32::MAX,
                inputs_map_wf(inputs@, g@, keys),
                self.nodes_below(g0@.len()),
                k <= self.memory@.len(),
                memory@.len() == k,
                forall|j: int|
                    0 <= j < k ==> match (#[trigger] self.memory@[j], memory@[j]) {
                        (None, None) => true,
                        (Some(x), Some(y)) => y.0 < g@.len() && cloned_value(g@, y, g0@, x, self.id, id, inputs@),
                        _ => false,
                    },
                forall|j: int, i: InputId|
                    0 <= j < k && (self.memory@[j] is Some && #[trigger] reads_input(g0@, self.memory@[j]->0, i))
                        ==> inputs@.contains_key(i.0),
                g0.spec_next_input().0 <= g.spec_next_input().0,
                fresh_inputs(inputs@, Map::empty(), g@, g0.spec_next_input().0 as int, g.spec_next_input().0 as int),
            decreases self.memory@.len() - k,
        {
            let ghost gk = *g;
            let ghost mk = inputs@;
            let ghost memk = memory@;
            match self.memory[k] {
                Some(x) => {
                    proof {
                        g.lemma_extends(&g0);
                        lemma_input_keys_extend(&g0, g, base);
                        vstd::set_lib::lemma_len_subset(mk.dom(), keys);
                        assert(memory_below(self.memory@, g0@.len()));
                    }
                    let y = x.clone_node(self.id, id, &mut inputs, g, Ghost(base));
                    proof {
                        g.lemma_extends(&gk);
                        Graph::lemma_extends_trans(&g0, &gk, g);
                        lemma_fresh_inputs_extend(mk, Map::empty(), gk@, g@, g0.spec_next_input().0 as int, gk.spec_next_input().0 as int);
                        lemma_fresh_inputs_trans(Map::empty(), mk, inputs@, g@, g0.spec_next_input().0 as int, gk.spec_next_input().0 as int, g.spec_next_input().0 as int);
                        lemma_eval_reads_rebase(&g0, &gk, x);
                        assert forall|copy: spec_fn(Offset, BlockId) -> u8, input: spec_fn(InputId) -> u8|
                            #[trigger] eval(g@, y, copy, input) == eval(
                                g0@,
                                x,
                                renamed_copy(self.id, id, copy),
                                renamed_input(g@, inputs@, input),
                            ) by {
                            gk.lemma_extends(&g0);
                            lemma_eval_extend(g0@, gk@, x, renamed_copy(self.id, id, copy), renamed_input(g@, inputs@, input));
                        }
                        assert forall|j: int| 0 <= j < k implies match (#[trigger] self.memory@[j], memory@[j]) {
                            (None, None) => true,
                            (Some(x), Some(y)) => y.0 < g@.len() && cloned_value(g@, y, g0@, x, self.id, id, inputs@),
                            _ => false,
                        } by {
                            if let (Some(a), Some(b)) = (self.memory@[j], memory@[j]) {
                                assert forall|i: InputId| reads_input(g0@, a, i) implies mk.contains_key(i.0) by {}
                                lemma_cloned_value_extend(&gk, g, b, g0@, a, self.id, id, mk, inputs@);
                            }
                        }
                    }
                    memory.push(Some(y));
                },
                None => {
                    memory.push(None);
                },
            }
            proof {
                assert forall|j: int| 0 <= j < k + 1 implies match (#[trigger] self.memory@[j], memory@[j]) {
                    (None, None) => true,
                    (Some(x), Some(y)) => y.0 < g@.len() && cloned_value(g@, y, g0@, x, self.id, id, inputs@),
                    _ => false,
                } by {
                    if j < k {
                        assert(memory@[j] == memk[j]);
                    }
                }
                assert forall|j: int, i: InputId|
                    0 <= j < k + 1 && (self.memory@[j] is Some && #[trigger] reads_input(g0@, self.memory@[j]->0, i))
                        implies inputs@.contains_key(i.0) by {
                    if j < k {
                        assert(mk.contains_key(i.0));
                    }
                }
            }
            k = k + 1;
        }
        let ghost g1 = *g;
        let ghost m1 = inputs@;
        let mut effects: Vec<Effect> = Vec::new();
        let mut k: usize = 0;
        proof {
            g.lemma_extends_refl();
            assert(m1 <= m1);
        }
        while k < self.effects.len()
            invariant
                g0.wf(),
                g.wf(),
                g.extends(&g0),
                g.extends(&g1),
                g1.extends(&g0),
                g.spec_next_block() == g0.spec_next_block(),
                g0.spec_next_block().0 == id.0 + 1,
                g.spec_next_input().0 - g0.spec_next_input().0 == inputs@.dom().len(),
                base == g0@.len(),
                keys == input_keys(g0@, base),
                keys.finite(),
                keys.len() <= base,
                g0.spec_next_input().0 + base <= u32::MAX,
                inputs_map_wf(inputs@, g@, keys),
                inputs_map_wf(m1, g1@, keys),
                m1 <= inputs@,
                self.nodes_below(g0@.len()),
                memory@.len() == self.memory@.len(),
                forall|j: int|
                    0 <= j < memory@.len() ==> match (#[trigger] self.memory@[j], memory@[j]) {
                        (None, None) => true,
                        (Some(x), Some(y)) => y.0 < g1@.len() && cloned_value(g1@, y, g0@, x, self.id, id, m1),
                        _ => false,
                    },
                forall|j: int, i: InputId|
                    0 <= j < memory@.len() && (self.memory@[j] is Some && #[trigger] reads_input(g0@, self.memory@[j]->0, i))
                        ==> m1.contains_key(i.0),
                k <= self.effects@.len(),
                effects@.len() == k,
                forall|j: int|
                    0 <= j < k ==> cloned_effect(#[trigger] effects@[j], self.effects@[j], g@, g0@, self.id, id, inputs@),
                forall|j: int, i: InputId|
                    0 <= j < k && #[trigger] effect_reads(self.effects@[j], g0@, i) ==> inputs@.contains_key(i.0),
                g0.spec_next_input().0 <= g.spec_next_input().0,
                fresh_inputs(inputs@, Map::empty(), g@, g0.spec_next_input().0 as int, g.spec_next_input().0 as int),
            decreases self.effects@.len() - k,
        {
            let ghost gk = *g;
            let ghost mk = inputs@;
            let ghost ek = effects@;
            proof {
                g.lemma_extends(&g0);
                lemma_input_keys_extend(&g0, g, base);
                vstd::set_lib::lemma_len_subset(mk.dom(), keys);
                assert(effects_below(self.effects@, g0@.len()));
                assert(effect_below(self.effects@[k as int], g0@.len()));
            }
            let e = clone_effect(&self.effects[k], self.id, id, &mut inputs, g, Ghost(base));
            proof {
                g.lemma_extends(&gk);
                lemma_fresh_inputs_extend(mk, Map::empty(), gk@, g@, g0.spec_next_input().0 as int, gk.spec_next_input().0 as int);
                lemma_fresh_inputs_trans(Map::empty(), mk, inputs@, g@, g0.spec_next_input().0 as int, gk.spec_next_input().0 as int, g.spec_next_input().0 as int);
                Graph::lemma_extends_trans(&g0, &gk, g);
                Graph::lemma_extends_trans(&g1, &gk, g);
                vstd::map_lib::lemma_submap_of_trans(m1, mk, inputs@);
                assert(cloned_effect(e, self.effects@[k as int], g@, gk@, self.id, id, inputs@));
                lemma_cloned_effect_rebase(&g0, &gk, g@, e, self.effects@[k as int], self.id, id, inputs@);
                assert forall|j: int| 0 <= j < k implies cloned_effect(#[trigger] effects@[j], self.effects@[j], g@, g0@, self.id, id, inputs@) by {
                    assert forall|i: InputId| effect_reads(self.effects@[j], g0@, i) implies mk.contains_key(i.0) by {}
                    lemma_cloned_effect_extend(&gk, g, ek[j], self.effects@[j], g0@, self.id, id, mk, inputs@);
                }
            }
            effects.push(e);
            proof {
                assert forall|j: int| 0 <= j < k + 1 implies cloned_effect(#[trigger] effects@[j], self.effects@[j], g@, g0@, self.id, id, inputs@) by {
                    if j < k {
                        assert(effects@[j] == ek[j]);
                    }
                }
                assert forall|j: int, i: InputId|
                    0 <= j < k + 1 && #[trigger] effect_reads(self.effects@[j], g0@, i) implies inputs@.contains_key(i.0) by {
                    if j < k {
                        assert(mk.contains_key(i.0));
                    } else {
                        lemma_effect_reads_rebase(&g0, &gk, self.effects@[k as int], i);
                    }
                }
            }
            k = k + 1;
        }
        let b = Block {
            id,
            memory,
            effects,
            offset: self.offset,
            min_offset: self.min_offset,
            guarded_left: self.guarded_left,
            guarded_right: self.guarded_right,
        };
        proof {
            g.lemma_extends(&g1);
            assert forall|j: int| 0 <= j < b.memory@.len() implies match (#[trigger] self.memory@[j], b.memory@[j]) {
                (None, None) => true,
                (Some(x), Some(y)) => y.0 < g@.len() && cloned_value(g@, y, g0@, x, self.id, id, inputs@),
                _ => false,
            } by {
                if let (Some(x), Some(y)) = (self.memory@[j], b.memory@[j]) {
                    assert forall|i: InputId| reads_input(g0@, x, i) implies m1.contains_key(i.0) by {}
                    lemma_cloned_value_extend(&g1, g, y, g0@, x, self.id, id, m1, inputs@);
                }
            }
            assert forall|j: int| 0 <= j < b.memory@.len() implies (#[trigger] b.memory@[j] matches Some(q) ==> q.0 < g@.len()) by {
                if let (Some(x), Some(y)) = (self.memory@[j], b.memory@[j]) {
                }
            }
            assert forall|j: int| 0 <= j < b.effects@.len() implies effect_below(#[trigger] b.effects@[j], g@.len()) by {
                assert(cloned_effect(b.effects@[j], self.effects@[j], g@, g0@, self.id, id, inputs@));
                if let Effect::Output(ys) = b.effects@[j] {
                    if let Effect::Output(xs) = self.effects@[j] {
                        assert forall|q: int| 0 <= q < ys@.len() implies (#[trigger] ys@[q]).0 < g@.len() by {}
                    }
                }
            }
            assert(cloned_block(&b, self, g@, g0@, inputs@));
            assert(inputs_map_wf(inputs@, g@, input_keys(old(g)@, old(g)@.len() as int)));
            assert forall|i: InputId| block_reads(self, old(g)@, i) implies inputs@.contains_key(i.0) by {
                if exists|k: int|
                    0 <= k < self.memory@.len() && (#[trigger] self.memory@[k]) is Some && reads_input(old(g)@, self.memory@[k]->0, i) {
                    let k = choose|k: int|
                        0 <= k < self.memory@.len() && (#[trigger] self.memory@[k]) is Some && reads_input(old(g)@, self.memory@[k]->0, i);
                    assert(m1.contains_key(i.0));
                } else {
                    let k = choose|k: int| 0 <= k < self.effects@.len() && effect_reads(#[trigger] self.effects@[k], old(g)@, i);
                    assert(effect_reads(self.effects@[k], g0@, i));
                }
            }
            Graph::lemma_extends_trans(old(g), &g0, g);
        }
        b
    }
}

} // verus!
