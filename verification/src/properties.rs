//! Properties of values relative to a block.

use vstd::prelude::*;

use crate::block::Block;
use crate::egraph::{NodeId, NodeRef};
use crate::node::{eval, BlockId, InputId, Node, Offset};

verus! {

/// Whether the value of node `id` reads from `block`: it reads an input, or
/// copies from `from` a cell that `block` assigns.
pub open spec fn reads(nodes: Seq<Node>, id: NodeId, block: &Block, from: BlockId) -> bool
    decreases id.0,
{
    if id.0 < nodes.len() {
        match nodes[id.0 as int] {
            Node::Copy(offset, b) => b == from && block.cell(offset.0 as int) is Some,
            Node::Const(_) => false,
            Node::Input(_) => true,
            Node::Add(l, r) | Node::Mul(l, r) => if l.0 < id.0 && r.0 < id.0 {
                reads(nodes, l, block, from) || reads(nodes, r, block, from)
            } else {
                false
            },
        }
    } else {
        false
    }
}

/// A value that does not read from a block is the same whatever the bytes
/// read as input, and whatever the cells that the block assigns held when
/// copied from `from`: only then is storing it again on the next iteration
/// storing the same value.
pub proof fn lemma_unread_value_fixed(
    nodes: Seq<Node>,
    id: NodeId,
    block: &Block,
    from: BlockId,
    copy1: spec_fn(Offset, BlockId) -> u8,
    copy2: spec_fn(Offset, BlockId) -> u8,
    input1: spec_fn(InputId) -> u8,
    input2: spec_fn(InputId) -> u8,
)
    requires
        !reads(nodes, id, block, from),
        forall|o: Offset, b: BlockId|
            !(b == from && block.cell(o.0 as int) is Some) ==> #[trigger] copy1(o, b) == copy2(o, b),
    ensures
        eval(nodes, id, copy1, input1) == eval(nodes, id, copy2, input2),
    decreases id.0,
{
    if id.0 < nodes.len() {
        match nodes[id.0 as int] {
            Node::Copy(o, b) => {
                assert(copy1(o, b) == copy2(o, b));
            },
            Node::Add(l, r) | Node::Mul(l, r) => {
                if l.0 < id.0 && r.0 < id.0 {
                    lemma_unread_value_fixed(nodes, l, block, from, copy1, copy2, input1, input2);
                    lemma_unread_value_fixed(nodes, r, block, from, copy1, copy2, input1, input2);
                }
            },
            _ => {},
        }
    }
}

/// Whether the value of node `id` is loop-invariant: it is built from
/// constants alone.
pub open spec fn invariant_value(nodes: Seq<Node>, id: NodeId) -> bool
    decreases id.0,
{
    if id.0 < nodes.len() {
        match nodes[id.0 as int] {
            Node::Copy(..) | Node::Input(_) => false,
            Node::Const(_) => true,
            Node::Add(l, r) | Node::Mul(l, r) => if l.0 < id.0 && r.0 < id.0 {
                invariant_value(nodes, l) && invariant_value(nodes, r)
            } else {
                false
            },
        }
    } else {
        false
    }
}

/// Whether the value of node `id` is loop-invariant with respect to
/// `block`, or adds such a value to the cell at `offset` copied from it.
pub open spec fn add_assign(nodes: Seq<Node>, id: NodeId, offset: Offset, block: &Block) -> bool {
    match nodes[id.0 as int] {
        Node::Add(l, r) => nodes[l.0 as int] == Node::Copy(offset, block.id) && !reads(
            nodes,
            r,
            block,
            block.id,
        ),
        _ => !reads(nodes, id, block, block.id),
    }
}

impl<'g> NodeRef<'g> {
    /// Returns whether this value is loop-invariant or an add-assign with a
    /// loop-invariant value.
    pub fn is_add_assign(&self, offset: Offset, block: &Block) -> (r: bool)
        requires
            self.spec_graph().wf(),
            self.spec_id().0 < self.spec_graph()@.len(),
        ensures
            r == add_assign(self.spec_graph()@, self.spec_id(), offset, block),
    {
        proof {
            self.spec_graph().lemma_wf_nodes();
        }
        if let Node::Add(lhs, rhs) = *self.node() {
            proof {
                assert(crate::egraph::children_below(self.spec_graph()@[self.spec_id().0 as int], self.spec_id().0 as int));
            }
            *self.get(lhs).node() == Node::Copy(offset, block.id) && !self.get(rhs).reads_from(block, block.id)
        } else {
            !self.reads_from(block, block.id)
        }
    }

    /// Returns whether this value reads from the block.
    pub fn reads_from(&self, block: &Block, copy_from: BlockId) -> (r: bool)
        requires
            self.spec_graph().wf(),
            self.spec_id().0 < self.spec_graph()@.len(),
        ensures
            r == reads(self.spec_graph()@, self.spec_id(), block, copy_from),
        decreases self.spec_id().0,
    {
        proof {
            self.spec_graph().lemma_wf_nodes();
            assert(crate::egraph::children_below(self.spec_graph()@[self.spec_id().0 as int], self.spec_id().0 as int));
        }
        match *self.node() {
            Node::Copy(offset, block_id) => block_id == copy_from && block.get_cell(offset).is_some(),
            Node::Const(_) => false,
            Node::Input(_) => true,
            Node::Add(lhs, rhs) | Node::Mul(lhs, rhs) => {
                self.get(lhs).reads_from(block, copy_from) || self.get(rhs).reads_from(block, copy_from)
            },
        }
    }

    /// Returns whether this value is loop-invariant.
    pub fn is_loop_invariant(&self) -> (r: bool)
        requires
            self.spec_graph().wf(),
            self.spec_id().0 < self.spec_graph()@.len(),
        ensures
            r == invariant_value(self.spec_graph()@, self.spec_id()),
        decreases self.spec_id().0,
    {
        proof {
            self.spec_graph().lemma_wf_nodes();
            assert(crate::egraph::children_below(self.spec_graph()@[self.spec_id().0 as int], self.spec_id().0 as int));
        }
        match *self.node() {
            Node::Copy(..) | Node::Input(_) => false,
            Node::Const(_) => true,
            Node::Add(lhs, rhs) | Node::Mul(lhs, rhs) => {
                self.get(lhs).is_loop_invariant() && self.get(rhs).is_loop_invariant()
            },
        }
    }
}

} // verus!
