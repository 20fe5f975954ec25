//! Nodes for byte computations and the identifiers they refer to.

use vstd::prelude::*;

use crate::egraph::{after_insert, children_below, Graph, NodeId};
use vstd::arithmetic::div_mod::{lemma_add_mod_noop, lemma_mul_mod_noop};
use vstd::arithmetic::mul::{
    lemma_mul_is_associative, lemma_mul_is_commutative, lemma_mul_is_distributive_add,
};

verus! {

/// A node for a byte computation.
#[derive(Clone, Copy, Debug, PartialEq, Eq, Hash, Structural)]
pub enum Node {
    /// Copy the byte from the cell at the offset.
    Copy(Offset, BlockId),
    /// A constant byte.
    Const(u8),
    /// A byte read from the user.
    Input(InputId),
    /// Addition of two bytes.
    Add(NodeId, NodeId),
    /// Multiplication of two bytes.
    Mul(NodeId, NodeId),
}

/// An ID for a basic block, unique per e-graph.
#[derive(Clone, Copy, Debug, PartialEq, Eq, Hash, Structural)]
pub struct BlockId(pub u32);

/// An ID for an input, unique per e-graph.
#[derive(Clone, Copy, Debug, PartialEq, Eq, Hash, Structural)]
pub struct InputId(pub u32);

/// A relative offset to the cell pointer.
#[derive(Clone, Copy, Debug, PartialEq, Eq, Hash, PartialOrd, Ord, Structural)]
pub struct Offset(pub i64);

impl Offset {
    /// Subtracts the minimum offset from this offset to get an index. Panics
    /// when `min > self`.
    pub fn index_from(self, min: Offset) -> (index: usize)
        requires
            min.0 <= self.0,
            self.0 - min.0 <= i64::MAX,
            self.0 - min.0 <= usize::MAX,
        ensures
            index == self.0 - min.0,
    {
        (self.0 - min.0) as usize
    }

    /// Subtracts the minimum offset from this offset to get an index, or
    /// `None` when the difference is negative or does not fit in `usize`.
    pub fn try_index_from(self, min: Offset) -> (index: Option<usize>)
        requires
            i64::MIN <= self.0 - min.0 <= i64::MAX,
        ensures
            index == (if 0 <= self.0 - min.0 <= usize::MAX {
                Some((self.0 - min.0) as usize)
            } else {
                None
            }),
    {
        let d = self.0 - min.0;
        if d >= 0 && (d as u64) <= (usize::MAX as u64) {
            Some(d as usize)
        } else {
            None
        }
    }

    /// Subtracts the minimum offset from this offset to get a signed index.
    pub fn index_from_signed(self, min: Offset) -> (index: isize)
        requires
            isize::MIN <= self.0 - min.0 <= isize::MAX,
        ensures
            index == self.0 - min.0,
    {
        (self.0 - min.0) as isize
    }

    /// Adds two offsets.
    pub fn add(self, rhs: Offset) -> (sum: Offset)
        requires
            i64::MIN <= self.0 + rhs.0 <= i64::MAX,
        ensures
            sum.0 == self.0 + rhs.0,
    {
        Offset(self.0 + rhs.0)
    }

    /// Adds a signed amount to this offset.
    pub fn add_i64(self, rhs: i64) -> (sum: Offset)
        requires
            i64::MIN <= self.0 + rhs <= i64::MAX,
        ensures
            sum.0 == self.0 + rhs,
    {
        Offset(self.0 + rhs)
    }

    /// Adds another offset to this offset in place.
    pub fn add_assign(&mut self, rhs: Offset)
        requires
            i64::MIN <= old(self).0 + rhs.0 <= i64::MAX,
        ensures
            final(self).0 == old(self).0 + rhs.0,
    {
        *self = self.add(rhs);
    }
}


/// Addition of bytes, wrapping modulo 256.
pub open spec fn add8(a: int, b: int) -> int {
    (a + b) % 256
}

/// The value of a `Const` node, or 0 for any other node.
pub open spec fn const_value(n: Node) -> int {
    match n {
        Node::Const(k) => k as int,
        _ => 0,
    }
}

/// Multiplication of bytes, wrapping modulo 256.
pub open spec fn mul8(a: int, b: int) -> int {
    (a * b) % 256
}

/// The value of the node with ID `id` in the sequence of nodes `nodes`, when
/// the cells copied from blocks hold `copy` and the inputs read are `input`.
/// Operands must come before the nodes that use them.
pub open spec fn eval(
    nodes: Seq<Node>,
    id: NodeId,
    copy: spec_fn(Offset, BlockId) -> u8,
    input: spec_fn(InputId) -> u8,
) -> int
    decreases id.0,
{
    if id.0 < nodes.len() {
        match nodes[id.0 as int] {
            Node::Copy(offset, block) => copy(offset, block) as int,
            Node::Const(c) => c as int,
            Node::Input(i) => input(i) as int,
            Node::Add(l, r) => if l.0 < id.0 && r.0 < id.0 {
                add8(eval(nodes, l, copy, input), eval(nodes, r, copy, input))
            } else {
                0
            },
            Node::Mul(l, r) => if l.0 < id.0 && r.0 < id.0 {
                mul8(eval(nodes, l, copy, input), eval(nodes, r, copy, input))
            } else {
                0
            },
        }
    } else {
        0
    }
}

/// The value of `node`, whose operands are in `nodes`.
pub open spec fn eval_node(
    nodes: Seq<Node>,
    node: Node,
    copy: spec_fn(Offset, BlockId) -> u8,
    input: spec_fn(InputId) -> u8,
) -> int {
    match node {
        Node::Copy(offset, block) => copy(offset, block) as int,
        Node::Const(c) => c as int,
        Node::Input(i) => input(i) as int,
        Node::Add(l, r) => add8(eval(nodes, l, copy, input), eval(nodes, r, copy, input)),
        Node::Mul(l, r) => mul8(eval(nodes, l, copy, input), eval(nodes, r, copy, input)),
    }
}

/// Whether the node with ID `id` in `nodes2` has the same value as `node`
/// over `nodes1`, for every content of the cells and inputs.
pub open spec fn same_value(nodes2: Seq<Node>, id: NodeId, nodes1: Seq<Node>, node: Node) -> bool {
    forall|copy: spec_fn(Offset, BlockId) -> u8, input: spec_fn(InputId) -> u8|
        #[trigger] eval(nodes2, id, copy, input) == eval_node(nodes1, node, copy, input)
}

/// A value is a byte.
pub proof fn lemma_eval_range(
    nodes: Seq<Node>,
    id: NodeId,
    copy: spec_fn(Offset, BlockId) -> u8,
    input: spec_fn(InputId) -> u8,
)
    ensures
        0 <= eval(nodes, id, copy, input) < 256,
{
}

/// Appending nodes keeps the values of the old nodes.
pub proof fn lemma_eval_extend(
    nodes: Seq<Node>,
    more: Seq<Node>,
    id: NodeId,
    copy: spec_fn(Offset, BlockId) -> u8,
    input: spec_fn(InputId) -> u8,
)
    requires
        id.0 < nodes.len(),
        nodes.len() <= more.len(),
        more.take(nodes.len() as int) == nodes,
    ensures
        eval(more, id, copy, input) == eval(nodes, id, copy, input),
    decreases id.0,
{
    assert(more[id.0 as int] == nodes[id.0 as int]);
    match nodes[id.0 as int] {
        Node::Add(l, r) | Node::Mul(l, r) => {
            if l.0 < id.0 && r.0 < id.0 {
                lemma_eval_extend(nodes, more, l, copy, input);
                lemma_eval_extend(nodes, more, r, copy, input);
            }
        },
        _ => {},
    }
}

/// The sum of two bytes wraps around once at most.
proof fn lemma_add8_wrap(a: int, b: int)
    by (nonlinear_arith)
    requires
        0 <= a < 256,
        0 <= b < 256,
    ensures
        add8(a, b) == if a + b < 256 {
            a + b
        } else {
            a + b - 256
        },
{
}

proof fn lemma_add8_props(a: int, b: int, c: int)
    requires
        0 <= a < 256,
        0 <= b < 256,
        0 <= c < 256,
    ensures
        add8(a, b) == add8(b, a),
        add8(add8(a, b), c) == add8(a, add8(b, c)),
        add8(a, 0) == a,
        0 <= add8(a, b) < 256,
{
    lemma_add8_wrap(a, b);
    lemma_add8_wrap(b, a);
    lemma_add8_wrap(a, 0);
    lemma_add8_wrap(b, c);
    lemma_add8_wrap(add8(a, b), c);
    lemma_add8_wrap(a, add8(b, c));
}

proof fn lemma_mul8_props(a: int, b: int, c: int)
    requires
        0 <= a < 256,
        0 <= b < 256,
        0 <= c < 256,
    ensures
        mul8(a, b) == mul8(b, a),
        mul8(mul8(a, b), c) == mul8(a, mul8(b, c)),
        mul8(a, 1) == a,
        mul8(a, 0) == 0,
        0 <= mul8(a, b) < 256,
        add8(a, a) == mul8(a, 2),
        add8(mul8(a, b), a) == mul8(a, add8(b, 1)),
{
    lemma_mul_is_commutative(a, b);
    lemma_mul_mod_noop(a * b, c, 256);
    lemma_mul_mod_noop(a, b * c, 256);
    lemma_mul_is_associative(a, b, c);
    lemma_mul_mod_noop(a, b + 1, 256);
    lemma_mul_is_distributive_add(a, b, 1);
    lemma_add_mod_noop(a * b, a, 256);
    lemma_mul_mod_noop(a, b, 256);
    assert(a % 256 == a);
    assert(b % 256 == b);
    assert(c % 256 == c);
    assert(((a * b) % 256 + a) % 256 == (a * b + a) % 256) by {
        lemma_add_mod_noop(a * b, a, 256);
    }
    assert((a * ((b + 1) % 256)) % 256 == (a * (b + 1)) % 256) by {
        lemma_mul_mod_noop(a, b + 1, 256);
    }
}

/// The number of idealization steps that one insertion may take, which
/// bounds the recursion. It is far above what any expression reaches before
/// the stack would overflow; past it, a node is inserted as it is, which has
/// the same value.
pub const IDEALIZE_BUDGET: u64 = 0xffff_ffff;

/// Evaluating a node of a well-formed graph evaluates its operation.
pub proof fn lemma_eval_wf(
    g: &Graph,
    id: NodeId,
    copy: spec_fn(Offset, BlockId) -> u8,
    input: spec_fn(InputId) -> u8,
)
    requires
        g.wf(),
        id.0 < g@.len(),
    ensures
        eval(g@, id, copy, input) == eval_node(g@, g@[id.0 as int], copy, input),
{
    g.lemma_wf_nodes();
    assert(children_below(g@[id.0 as int], id.0 as int));
}

/// Appending nodes keeps the value of a node whose operands are old.
pub proof fn lemma_eval_node_extend(
    nodes: Seq<Node>,
    more: Seq<Node>,
    node: Node,
    copy: spec_fn(Offset, BlockId) -> u8,
    input: spec_fn(InputId) -> u8,
)
    requires
        children_below(node, nodes.len() as int),
        nodes.len() <= more.len(),
        more.take(nodes.len() as int) == nodes,
    ensures
        eval_node(more, node, copy, input) == eval_node(nodes, node, copy, input),
{
    match node {
        Node::Add(l, r) | Node::Mul(l, r) => {
            lemma_eval_extend(nodes, more, l, copy, input);
            lemma_eval_extend(nodes, more, r, copy, input);
        },
        _ => {},
    }
}

/// `g2` is `g1` with nodes added and its counters unchanged, and the budget
/// has not grown.
pub open spec fn inserted(g2: &Graph, g1: &Graph, f2: u64, f1: u64) -> bool {
    &&& g2.wf()
    &&& g2.extends(g1)
    &&& g1@.len() <= g2@.len()
    &&& g2.spec_next_block() == g1.spec_next_block()
    &&& g2.spec_next_input() == g1.spec_next_input()
    &&& f2 <= f1
}

/// The smaller of a budget `f1` that a step left and the budget `f` it was
/// given; the steps never grow it, so this is `f1`.
pub open spec fn capped(f1: nat, f: nat) -> nat {
    if f1 <= f {
        f1
    } else {
        f
    }
}

/// The nodes, ID and remaining budget that inserting the product of `lhs` and
/// `rhs` into `nodes` in its ideal representation gives, with `fuel` steps
/// of idealization. One step applies the first rule that matches:
/// - a product times a product is reassociated to the left,
///   `a * (b * c) = (a * b) * c`, and a product on the right is moved left;
/// - with `(tail *) head` on the left and `rhs` on the right: two constants
///   fold with wrapping multiplication; a factor 1 drops; a factor 0 gives
///   the constant 0; a constant `head` moves to the end; else the product is
///   inserted as it is;
/// - a folded or dropped factor is multiplied back onto `tail`.
pub open spec fn ideal_mul(nodes: Seq<Node>, lhs: NodeId, rhs: NodeId, fuel: nat) -> (Seq<Node>, NodeId, nat)
    decreases fuel, 0nat,
{
    if fuel == 0 {
        let (n, i) = after_insert(nodes, Node::Mul(lhs, rhs));
        (n, i, 0)
    } else {
        let f = (fuel - 1) as nat;
        let ln = nodes[lhs.0 as int];
        let rn0 = nodes[rhs.0 as int];
        if rn0 is Mul && ln is Mul {
            let (n1, x, f1) = ideal_mul(nodes, lhs, rn0->Mul_0, f);
            ideal_mul(n1, x, rn0->Mul_1, capped(f1, f))
        } else {
            let l = if rn0 is Mul { rhs } else { lhs };
            let r = if rn0 is Mul { lhs } else { rhs };
            let tail = if nodes[l.0 as int] is Mul { Some(nodes[l.0 as int]->Mul_0) } else { None::<NodeId> };
            let head = if nodes[l.0 as int] is Mul { nodes[l.0 as int]->Mul_1 } else { l };
            let hn = nodes[head.0 as int];
            let rn = nodes[r.0 as int];
            if (hn is Const && rn is Const) || rn == Node::Const(1) || hn == Node::Const(1) {
                let (n1, res) = if hn is Const && rn is Const {
                    after_insert(nodes, Node::Const(mul8(const_value(hn), const_value(rn)) as u8))
                } else if rn == Node::Const(1) {
                    (nodes, head)
                } else {
                    (nodes, r)
                };
                let idealize = (hn is Const && rn is Const) || rn != Node::Const(1);
                match tail {
                    Some(t) => if res == head {
                        (n1, l, f)
                    } else if idealize {
                        ideal_mul(n1, t, res, f)
                    } else {
                        let (n2, y) = after_insert(n1, Node::Mul(t, res));
                        (n2, y, f)
                    },
                    None => (n1, res, f),
                }
            } else if rn == Node::Const(0) || hn == Node::Const(0) {
                let (n1, z) = after_insert(nodes, Node::Const(0));
                (n1, z, f)
            } else if hn is Const {
                match tail {
                    Some(t) => {
                        let (n1, x, f1) = ideal_mul(nodes, t, r, f);
                        ideal_mul(n1, x, head, capped(f1, f))
                    },
                    None => {
                        let (n1, z) = after_insert(nodes, Node::Mul(r, head));
                        (n1, z, f)
                    },
                }
            } else {
                let (n1, z) = after_insert(nodes, Node::Mul(l, r));
                (n1, z, f)
            }
        }
    }
}

/// The nodes, ID and budget that combining the last addend `head` with a
/// right operand `r` gives, with `f` steps: two constants fold with wrapping
/// addition; an addend 0 drops; `x + x` becomes `x * 2`; `x * y + x`
/// becomes `x * (y + 1)`; and `x + x * c` becomes `x * (c + 1)`.
#[verifier::opaque]
pub open spec fn add_res(nodes: Seq<Node>, head: NodeId, r: NodeId, f: nat) -> (Seq<Node>, NodeId, nat)
    decreases f, 2nat,
{
    let hn = nodes[head.0 as int];
    let rn = nodes[r.0 as int];
    if hn is Const && rn is Const {
        let (n1, c) = after_insert(nodes, Node::Const(add8(const_value(hn), const_value(rn)) as u8));
        (n1, c, f)
    } else if rn == Node::Const(0) {
        (nodes, head, f)
    } else if hn == Node::Const(0) {
        (nodes, r, f)
    } else if head == r {
        let (n1, two) = after_insert(nodes, Node::Const(2));
        ideal_mul(n1, head, two, f)
    } else if hn is Mul && hn->Mul_0 == r {
        let (n1, one) = after_insert(nodes, Node::Const(1));
        let (n2, m, f1) = ideal_add(n1, hn->Mul_1, one, f);
        ideal_mul(n2, hn->Mul_0, m, capped(f1, f))
    } else {
        let (n1, one) = after_insert(nodes, Node::Const(1));
        let (n2, m, f1) = ideal_add(n1, rn->Mul_1, one, f);
        ideal_mul(n2, head, m, capped(f1, f))
    }
}

/// The nodes, ID and remaining budget that inserting the sum of `lhs` and
/// `rhs` into `nodes` in its ideal representation gives, with `fuel` steps
/// of idealization. One step applies the first rule that matches:
/// - a sum plus a sum is reassociated to the left, and a sum on the right is
///   moved left;
/// - with `(tail +) head` on the left and `rhs` on the right: a constant
///   `head` other than 0 before a non-constant moves to the end; `add_res`
///   combines the two where one of its rules applies; else the sum is
///   inserted as it is;
/// - a folded, dropped or combined addend is added back onto `tail`.
#[verifier::opaque]
pub open spec fn ideal_add(nodes: Seq<Node>, lhs: NodeId, rhs: NodeId, fuel: nat) -> (Seq<Node>, NodeId, nat)
    decreases fuel, 1nat,
{
    if fuel == 0 {
        let (n, i) = after_insert(nodes, Node::Add(lhs, rhs));
        (n, i, 0)
    } else {
        let f = (fuel - 1) as nat;
        let ln = nodes[lhs.0 as int];
        let rn0 = nodes[rhs.0 as int];
        if rn0 is Add && ln is Add {
            let (n1, x, f1) = ideal_add(nodes, lhs, rn0->Add_0, f);
            ideal_add(n1, x, rn0->Add_1, capped(f1, f))
        } else {
            let l = if rn0 is Add { rhs } else { lhs };
            let r = if rn0 is Add { lhs } else { rhs };
            let tail = if nodes[l.0 as int] is Add { Some(nodes[l.0 as int]->Add_0) } else { None::<NodeId> };
            let head = if nodes[l.0 as int] is Add { nodes[l.0 as int]->Add_1 } else { l };
            let hn = nodes[head.0 as int];
            let rn = nodes[r.0 as int];
            if hn is Const && !(rn is Const) && hn != Node::Const(0) {
                match tail {
                    Some(t) => {
                        let (n1, x, f1) = ideal_add(nodes, t, r, f);
                        ideal_add(n1, x, head, capped(f1, f))
                    },
                    None => {
                        let (n1, z) = after_insert(nodes, Node::Add(r, head));
                        (n1, z, f)
                    },
                }
            } else if !(hn is Const) && rn != Node::Const(0) && head != r && !(hn is Mul && hn->Mul_0 == r)
                && !(rn is Mul && rn->Mul_0 == head) {
                let (n1, z) = after_insert(nodes, Node::Add(l, r));
                (n1, z, f)
            } else {
                let (nk, res, fk) = add_res(nodes, head, r, f);
                let idealize = !(!(hn is Const && rn is Const) && rn == Node::Const(0));
                match tail {
                    Some(t) => if res == head {
                        (nk, l, capped(fk, f))
                    } else if idealize {
                        ideal_add(nk, t, res, capped(fk, f))
                    } else {
                        let (n2, y) = after_insert(nk, Node::Add(t, res));
                        (n2, y, capped(fk, f))
                    },
                    None => (nk, res, capped(fk, f)),
                }
            }
        }
    }
}

/// The nodes and ID that inserting `node` into `nodes` in its ideal
/// representation gives, with the full budget of idealization steps.
pub open spec fn ideal_insert(nodes: Seq<Node>, node: Node) -> (Seq<Node>, NodeId) {
    match node {
        Node::Add(l, r) => {
            let (n, id, _) = ideal_add(nodes, l, r, IDEALIZE_BUDGET as nat);
            (n, id)
        },
        Node::Mul(l, r) => {
            let (n, id, _) = ideal_mul(nodes, l, r, IDEALIZE_BUDGET as nat);
            (n, id)
        },
        _ => after_insert(nodes, node),
    }
}

/// Whether `a` is a prefix of `b`.
pub open spec fn grown(a: Seq<Node>, b: Seq<Node>) -> bool {
    a.len() <= b.len() && b.take(a.len() as int) == a
}

/// Whether the operands of each node of `nodes` come before it.
pub open spec fn operands_before(nodes: Seq<Node>) -> bool {
    forall|i: int| 0 <= i < nodes.len() ==> children_below(#[trigger] nodes[i], i)
}

/// Whether no node occurs twice in `nodes`.
pub open spec fn unique_nodes(nodes: Seq<Node>) -> bool {
    forall|i: int, j: int| 0 <= i < j < nodes.len() ==> #[trigger] nodes[i] != #[trigger] nodes[j]
}

/// Inserting a node as it is grows the nodes.
pub(crate) proof fn lemma_after_insert_grown(n: Seq<Node>, node: Node)
    ensures
        grown(n, after_insert(n, node).0),
{
    if n.contains(node) {
        assert(n.take(n.len() as int) =~= n);
    } else {
        assert(n.push(node).take(n.len() as int) =~= n);
    }
}

/// Inserting a node as it is gives an ID that holds it.
pub(crate) proof fn lemma_after_insert_grows(n: Seq<Node>, node: Node)
    requires
        operands_before(n),
        children_below(node, n.len() as int),
        after_insert(n, node).0.len() <= usize::MAX,
    ensures
        grown(n, after_insert(n, node).0),
        after_insert(n, node).1.0 < after_insert(n, node).0.len(),
        after_insert(n, node).0[after_insert(n, node).1.0 as int] == node,
        operands_before(after_insert(n, node).0),
{
    if n.contains(node) {
        let j = n.index_of(node);
        assert(0 <= j < n.len() && n[j] == node);
        assert(n.take(n.len() as int) =~= n);
    } else {
        assert(n.push(node).take(n.len() as int) =~= n);
        assert forall|i: int| 0 <= i < n.push(node).len() implies children_below(#[trigger] n.push(node)[i], i) by {
            if i < n.len() {
                assert(n.push(node)[i] == n[i]);
            }
        }
    }
}

/// Inserting a node that a grown, duplicate-free sequence `m` already holds
/// leaves `m` and gives the same ID.
pub(crate) proof fn lemma_after_insert_stable(n: Seq<Node>, node: Node, m: Seq<Node>)
    requires
        operands_before(n),
        children_below(node, n.len() as int),
        grown(after_insert(n, node).0, m),
        unique_nodes(m),
        m.len() <= usize::MAX,
    ensures
        after_insert(m, node) == (m, after_insert(n, node).1),
{
    lemma_after_insert_grows(n, node);
    let (n1, i) = after_insert(n, node);
    assert(m[i.0 as int] == n1.take(n1.len() as int)[i.0 as int]);
    assert(m.contains(node));
    let j = m.index_of(node);
    assert(0 <= j < m.len() && m[j] == node);
    if j < i.0 {
        assert(m[j] != m[i.0 as int]);
    } else if j > i.0 {
        assert(m[i.0 as int] != m[j]);
    }
}

/// Growth is transitive.
pub(crate) proof fn lemma_grown_trans(a: Seq<Node>, b: Seq<Node>, c: Seq<Node>)
    requires
        grown(a, b),
        grown(b, c),
    ensures
        grown(a, c),
{
    assert(c.take(a.len() as int) =~= b.take(a.len() as int));
}

/// A grown sequence holds the same nodes at the old indices.
pub(crate) proof fn lemma_grown_index(a: Seq<Node>, b: Seq<Node>, i: int)
    requires
        grown(a, b),
        0 <= i < a.len(),
    ensures
        b[i] == a[i],
{
    assert(b.take(a.len() as int)[i] == b[i]);
}

/// Idealizing a product grows the nodes.
proof fn lemma_ideal_mul_grown(n: Seq<Node>, l: NodeId, r: NodeId, f: nat)
    ensures
        grown(n, ideal_mul(n, l, r, f).0),
    decreases f, 0nat,
{
    let out = ideal_mul(n, l, r, f);
    if f == 0 {
        lemma_after_insert_grown(n, Node::Mul(l, r));
    } else {
        let g = (f - 1) as nat;
        let ln = n[l.0 as int];
        let rn0 = n[r.0 as int];
        if rn0 is Mul && ln is Mul {
            let t1 = ideal_mul(n, l, rn0->Mul_0, g);
            lemma_ideal_mul_grown(n, l, rn0->Mul_0, g);
            lemma_ideal_mul_grown(t1.0, t1.1, rn0->Mul_1, capped(t1.2, g));
            lemma_grown_trans(n, t1.0, out.0);
        } else {
            let lx = if rn0 is Mul { r } else { l };
            let rx = if rn0 is Mul { l } else { r };
            let tail = if n[lx.0 as int] is Mul { Some(n[lx.0 as int]->Mul_0) } else { None::<NodeId> };
            let head = if n[lx.0 as int] is Mul { n[lx.0 as int]->Mul_1 } else { lx };
            let hn = n[head.0 as int];
            let rn = n[rx.0 as int];
            if (hn is Const && rn is Const) || rn == Node::Const(1) || hn == Node::Const(1) {
                let p = if hn is Const && rn is Const {
                    after_insert(n, Node::Const(mul8(const_value(hn), const_value(rn)) as u8))
                } else if rn == Node::Const(1) {
                    (n, head)
                } else {
                    (n, rx)
                };
                let n1 = p.0;
                let res = p.1;
                if hn is Const && rn is Const {
                    lemma_after_insert_grown(n, Node::Const(mul8(const_value(hn), const_value(rn)) as u8));
                } else {
                    assert(n.take(n.len() as int) =~= n);
                }
                let idealize = (hn is Const && rn is Const) || rn != Node::Const(1);
                if let Some(t) = tail {
                    if res == head {
                    } else if idealize {
                        lemma_ideal_mul_grown(n1, t, res, g);
                        lemma_grown_trans(n, n1, out.0);
                    } else {
                        lemma_after_insert_grown(n1, Node::Mul(t, res));
                        lemma_grown_trans(n, n1, out.0);
                    }
                }
            } else if rn == Node::Const(0) || hn == Node::Const(0) {
                lemma_after_insert_grown(n, Node::Const(0));
            } else if hn is Const {
                if let Some(t) = tail {
                    let t1 = ideal_mul(n, t, rx, g);
                    lemma_ideal_mul_grown(n, t, rx, g);
                    lemma_ideal_mul_grown(t1.0, t1.1, head, capped(t1.2, g));
                    lemma_grown_trans(n, t1.0, out.0);
                } else {
                    lemma_after_insert_grown(n, Node::Mul(rx, head));
                }
            } else {
                lemma_after_insert_grown(n, Node::Mul(lx, rx));
            }
        }
    }
}

/// Idealizing a product keeps operands before their nodes, gives an ID in
/// range and does not grow the budget.
proof fn lemma_ideal_mul_grows(n: Seq<Node>, l: NodeId, r: NodeId, f: nat)
    requires
        operands_before(n),
        l.0 < n.len(),
        r.0 < n.len(),
        ideal_mul(n, l, r, f).0.len() <= usize::MAX,
    ensures
        grown(n, ideal_mul(n, l, r, f).0),
        ideal_mul(n, l, r, f).1.0 < ideal_mul(n, l, r, f).0.len(),
        operands_before(ideal_mul(n, l, r, f).0),
        ideal_mul(n, l, r, f).2 <= f,
    decreases f, 0nat,
{
    let out = ideal_mul(n, l, r, f);
    if f == 0 {
        lemma_after_insert_grows(n, Node::Mul(l, r));
    } else {
        let g = (f - 1) as nat;
        let ln = n[l.0 as int];
        let rn0 = n[r.0 as int];
        assert(children_below(n[l.0 as int], l.0 as int));
        assert(children_below(n[r.0 as int], r.0 as int));
        if rn0 is Mul && ln is Mul {
            let t1 = ideal_mul(n, l, rn0->Mul_0, g);
            lemma_ideal_mul_grown(t1.0, t1.1, rn0->Mul_1, capped(t1.2, g));
            lemma_ideal_mul_grows(n, l, rn0->Mul_0, g);
            lemma_ideal_mul_grows(t1.0, t1.1, rn0->Mul_1, capped(t1.2, g));
            lemma_grown_trans(n, t1.0, out.0);
        } else {
            let lx = if rn0 is Mul { r } else { l };
            let rx = if rn0 is Mul { l } else { r };
            assert(children_below(n[lx.0 as int], lx.0 as int));
            let tail = if n[lx.0 as int] is Mul { Some(n[lx.0 as int]->Mul_0) } else { None::<NodeId> };
            let head = if n[lx.0 as int] is Mul { n[lx.0 as int]->Mul_1 } else { lx };
            let hn = n[head.0 as int];
            let rn = n[rx.0 as int];
            if (hn is Const && rn is Const) || rn == Node::Const(1) || hn == Node::Const(1) {
                let p = if hn is Const && rn is Const {
                    after_insert(n, Node::Const(mul8(const_value(hn), const_value(rn)) as u8))
                } else if rn == Node::Const(1) {
                    (n, head)
                } else {
                    (n, rx)
                };
                let n1 = p.0;
                let res = p.1;
                lemma_ideal_mul_grown(n, l, r, f);
                if let Some(t) = tail {
                    if res != head {
                        lemma_ideal_mul_grown(n1, t, res, g);
                        lemma_after_insert_grown(n1, Node::Mul(t, res));
                    }
                }
                if hn is Const && rn is Const {
                    lemma_after_insert_grows(n, Node::Const(mul8(const_value(hn), const_value(rn)) as u8));
                } else {
                    assert(n.take(n.len() as int) =~= n);
                }
                let idealize = (hn is Const && rn is Const) || rn != Node::Const(1);
                if let Some(t) = tail {
                    if res == head {
                    } else if idealize {
                        lemma_ideal_mul_grows(n1, t, res, g);
                        lemma_grown_trans(n, n1, out.0);
                    } else {
                        lemma_after_insert_grows(n1, Node::Mul(t, res));
                        lemma_grown_trans(n, n1, out.0);
                    }
                }
            } else if rn == Node::Const(0) || hn == Node::Const(0) {
                lemma_after_insert_grows(n, Node::Const(0));
            } else if hn is Const {
                if let Some(t) = tail {
                    let t1 = ideal_mul(n, t, rx, g);
                    lemma_ideal_mul_grown(t1.0, t1.1, head, capped(t1.2, g));
                    lemma_ideal_mul_grows(n, t, rx, g);
                    lemma_ideal_mul_grows(t1.0, t1.1, head, capped(t1.2, g));
                    lemma_grown_trans(n, t1.0, out.0);
                } else {
                    lemma_after_insert_grows(n, Node::Mul(rx, head));
                }
            } else {
                lemma_after_insert_grows(n, Node::Mul(lx, rx));
            }
        }
    }
}

/// Idealizing a product again, in a duplicate-free sequence `m` that holds
/// what the first time gave, leaves `m` and gives the same ID and budget.
proof fn lemma_ideal_mul_stable(n: Seq<Node>, l: NodeId, r: NodeId, f: nat, m: Seq<Node>)
    requires
        operands_before(n),
        l.0 < n.len(),
        r.0 < n.len(),
        grown(ideal_mul(n, l, r, f).0, m),
        unique_nodes(m),
        m.len() <= usize::MAX,
    ensures
        ideal_mul(m, l, r, f) == (m, ideal_mul(n, l, r, f).1, ideal_mul(n, l, r, f).2),
    decreases f, 0nat,
{
    let out = ideal_mul(n, l, r, f);
    lemma_ideal_mul_grown(n, l, r, f);
    lemma_grown_trans(n, out.0, m);
    if f == 0 {
        lemma_after_insert_stable(n, Node::Mul(l, r), m);
    } else {
        let g = (f - 1) as nat;
        let ln = n[l.0 as int];
        let rn0 = n[r.0 as int];
        assert(children_below(n[l.0 as int], l.0 as int));
        assert(children_below(n[r.0 as int], r.0 as int));
        lemma_grown_index(n, m, l.0 as int);
        lemma_grown_index(n, m, r.0 as int);
        if rn0 is Mul && ln is Mul {
            let t1 = ideal_mul(n, l, rn0->Mul_0, g);
            lemma_ideal_mul_grown(t1.0, t1.1, rn0->Mul_1, capped(t1.2, g));
            lemma_grown_trans(t1.0, out.0, m);
            lemma_ideal_mul_grows(n, l, rn0->Mul_0, g);
            lemma_ideal_mul_stable(n, l, rn0->Mul_0, g, m);
            lemma_ideal_mul_stable(t1.0, t1.1, rn0->Mul_1, capped(t1.2, g), m);
        } else {
            let lx = if rn0 is Mul { r } else { l };
            let rx = if rn0 is Mul { l } else { r };
            assert(children_below(n[lx.0 as int], lx.0 as int));
            let tail = if n[lx.0 as int] is Mul { Some(n[lx.0 as int]->Mul_0) } else { None::<NodeId> };
            let head = if n[lx.0 as int] is Mul { n[lx.0 as int]->Mul_1 } else { lx };
            lemma_grown_index(n, m, head.0 as int);
            let hn = n[head.0 as int];
            let rn = n[rx.0 as int];
            if (hn is Const && rn is Const) || rn == Node::Const(1) || hn == Node::Const(1) {
                let p = if hn is Const && rn is Const {
                    after_insert(n, Node::Const(mul8(const_value(hn), const_value(rn)) as u8))
                } else if rn == Node::Const(1) {
                    (n, head)
                } else {
                    (n, rx)
                };
                let n1 = p.0;
                let res = p.1;
                let idealize = (hn is Const && rn is Const) || rn != Node::Const(1);
                if let Some(t) = tail {
                    if res != head {
                        lemma_ideal_mul_grown(n1, t, res, g);
                        lemma_after_insert_grown(n1, Node::Mul(t, res));
                    }
                }
                assert(n1.take(n1.len() as int) =~= n1);
                lemma_grown_trans(n1, out.0, m);
                if hn is Const && rn is Const {
                    lemma_after_insert_grows(n, Node::Const(mul8(const_value(hn), const_value(rn)) as u8));
                    lemma_after_insert_stable(n, Node::Const(mul8(const_value(hn), const_value(rn)) as u8), m);
                } else {
                    assert(n.take(n.len() as int) =~= n);
                }
                if let Some(t) = tail {
                    if res != head {
                        if idealize {
                            lemma_ideal_mul_stable(n1, t, res, g, m);
                        } else {
                            lemma_after_insert_stable(n1, Node::Mul(t, res), m);
                        }
                    }
                }
            } else if rn == Node::Const(0) || hn == Node::Const(0) {
                lemma_after_insert_stable(n, Node::Const(0), m);
            } else if hn is Const {
                if let Some(t) = tail {
                    let t1 = ideal_mul(n, t, rx, g);
                    lemma_ideal_mul_grown(t1.0, t1.1, head, capped(t1.2, g));
                    lemma_grown_trans(t1.0, out.0, m);
                    lemma_ideal_mul_grows(n, t, rx, g);
                    lemma_ideal_mul_stable(n, t, rx, g, m);
                    lemma_ideal_mul_stable(t1.0, t1.1, head, capped(t1.2, g), m);
                } else {
                    lemma_after_insert_stable(n, Node::Mul(rx, head), m);
                }
            } else {
                lemma_after_insert_stable(n, Node::Mul(lx, rx), m);
            }
        }
    }
}

/// Whether one of the rules of `add_res` applies to `head` and `r`.
pub open spec fn combinable(nodes: Seq<Node>, head: NodeId, r: NodeId) -> bool {
    let hn = nodes[head.0 as int];
    let rn = nodes[r.0 as int];
    (hn is Const && rn is Const) || rn == Node::Const(0) || hn == Node::Const(0) || head == r
        || (hn is Mul && hn->Mul_0 == r) || (rn is Mul && rn->Mul_0 == head)
}

/// Combining two addends grows the nodes.
proof fn lemma_add_res_grown(n: Seq<Node>, head: NodeId, r: NodeId, f: nat)
    ensures
        grown(n, add_res(n, head, r, f).0),
    decreases f, 2nat,
{
    reveal(add_res);
    reveal(ideal_add);
    let out = add_res(n, head, r, f);
    let hn = n[head.0 as int];
    let rn = n[r.0 as int];
    assert(n.take(n.len() as int) =~= n);
    if hn is Const && rn is Const {
        lemma_after_insert_grown(n, Node::Const(add8(const_value(hn), const_value(rn)) as u8));
    } else if rn == Node::Const(0) || hn == Node::Const(0) {
    } else if head == r {
        let p = after_insert(n, Node::Const(2));
        lemma_after_insert_grown(n, Node::Const(2));
        lemma_ideal_mul_grown(p.0, head, p.1, f);
        lemma_grown_trans(n, p.0, out.0);
    } else if hn is Mul && hn->Mul_0 == r {
        let p = after_insert(n, Node::Const(1));
        lemma_after_insert_grown(n, Node::Const(1));
        let t2 = ideal_add(p.0, hn->Mul_1, p.1, f);
        assert(out == ideal_mul(t2.0, hn->Mul_0, t2.1, capped(t2.2, f)));
        lemma_ideal_add_grown(p.0, hn->Mul_1, p.1, f);
        lemma_ideal_mul_grown(t2.0, hn->Mul_0, t2.1, capped(t2.2, f));
        lemma_grown_trans(n, p.0, t2.0);
        lemma_grown_trans(n, t2.0, out.0);
    } else {
        let p = after_insert(n, Node::Const(1));
        lemma_after_insert_grown(n, Node::Const(1));
        let t2 = ideal_add(p.0, rn->Mul_1, p.1, f);
        assert(out == ideal_mul(t2.0, head, t2.1, capped(t2.2, f)));
        lemma_ideal_add_grown(p.0, rn->Mul_1, p.1, f);
        lemma_ideal_mul_grown(t2.0, head, t2.1, capped(t2.2, f));
        lemma_grown_trans(n, p.0, t2.0);
        lemma_grown_trans(n, t2.0, out.0);
    }
}

/// Idealizing a sum grows the nodes.
proof fn lemma_ideal_add_grown(n: Seq<Node>, l: NodeId, r: NodeId, f: nat)
    ensures
        grown(n, ideal_add(n, l, r, f).0),
    decreases f, 1nat,
{
    reveal(ideal_add);
    reveal(add_res);
    let out = ideal_add(n, l, r, f);
    if f == 0 {
        lemma_after_insert_grown(n, Node::Add(l, r));
    } else {
        let g = (f - 1) as nat;
        let ln = n[l.0 as int];
        let rn0 = n[r.0 as int];
        if rn0 is Add && ln is Add {
            let t1 = ideal_add(n, l, rn0->Add_0, g);
            lemma_ideal_add_grown(n, l, rn0->Add_0, g);
            lemma_ideal_add_grown(t1.0, t1.1, rn0->Add_1, capped(t1.2, g));
            lemma_grown_trans(n, t1.0, out.0);
        } else {
            let lx = if rn0 is Add { r } else { l };
            let rx = if rn0 is Add { l } else { r };
            let tail = if n[lx.0 as int] is Add { Some(n[lx.0 as int]->Add_0) } else { None::<NodeId> };
            let head = if n[lx.0 as int] is Add { n[lx.0 as int]->Add_1 } else { lx };
            let hn = n[head.0 as int];
            let rn = n[rx.0 as int];
            if hn is Const && !(rn is Const) && hn != Node::Const(0) {
                if let Some(t) = tail {
                    let t1 = ideal_add(n, t, rx, g);
                    lemma_ideal_add_grown(n, t, rx, g);
                    lemma_ideal_add_grown(t1.0, t1.1, head, capped(t1.2, g));
                    lemma_grown_trans(n, t1.0, out.0);
                } else {
                    lemma_after_insert_grown(n, Node::Add(rx, head));
                }
            } else if !(hn is Const) && rn != Node::Const(0) && head != rx && !(hn is Mul && hn->Mul_0 == rx)
                && !(rn is Mul && rn->Mul_0 == head) {
                lemma_after_insert_grown(n, Node::Add(lx, rx));
            } else {
                let t = add_res(n, head, rx, g);
                lemma_add_res_grown(n, head, rx, g);
                let idealize = !(!(hn is Const && rn is Const) && rn == Node::Const(0));
                if let Some(tt) = tail {
                    if t.1 != head {
                        if idealize {
                            lemma_ideal_add_grown(t.0, tt, t.1, capped(t.2, g));
                        } else {
                            lemma_after_insert_grown(t.0, Node::Add(tt, t.1));
                        }
                        lemma_grown_trans(n, t.0, out.0);
                    }
                }
            }
        }
    }
}

/// Combining two addends keeps operands before their nodes, gives an ID in
/// range and does not grow the budget.
proof fn lemma_add_res_grows(n: Seq<Node>, head: NodeId, r: NodeId, f: nat)
    requires
        operands_before(n),
        head.0 < n.len(),
        r.0 < n.len(),
        combinable(n, head, r),
        add_res(n, head, r, f).0.len() <= usize::MAX,
    ensures
        add_res(n, head, r, f).1.0 < add_res(n, head, r, f).0.len(),
        operands_before(add_res(n, head, r, f).0),
        add_res(n, head, r, f).2 <= f,
    decreases f, 2nat,
{
    reveal(add_res);
    reveal(ideal_add);
    let out = add_res(n, head, r, f);
    let hn = n[head.0 as int];
    let rn = n[r.0 as int];
    assert(children_below(n[head.0 as int], head.0 as int));
    assert(children_below(n[r.0 as int], r.0 as int));
    if hn is Const && rn is Const {
        lemma_after_insert_grows(n, Node::Const(add8(const_value(hn), const_value(rn)) as u8));
    } else if rn == Node::Const(0) || hn == Node::Const(0) {
    } else if head == r {
        let p = after_insert(n, Node::Const(2));
        lemma_ideal_mul_grown(p.0, head, p.1, f);
        lemma_after_insert_grows(n, Node::Const(2));
        lemma_ideal_mul_grows(p.0, head, p.1, f);
    } else {
        let p = after_insert(n, Node::Const(1));
        let y = if hn is Mul && hn->Mul_0 == r { hn->Mul_1 } else { rn->Mul_1 };
        let x = if hn is Mul && hn->Mul_0 == r { hn->Mul_0 } else { head };
        let t2 = ideal_add(p.0, y, p.1, f);
        lemma_ideal_mul_grown(t2.0, x, t2.1, capped(t2.2, f));
        lemma_ideal_add_grown(p.0, y, p.1, f);
        lemma_after_insert_grown(n, Node::Const(1));
        lemma_grown_trans(p.0, t2.0, out.0);
        lemma_after_insert_grows(n, Node::Const(1));
        lemma_ideal_add_grows(p.0, y, p.1, f);
        lemma_ideal_mul_grows(t2.0, x, t2.1, capped(t2.2, f));
    }
}

/// Idealizing a sum keeps operands before their nodes, gives an ID in range
/// and does not grow the budget.
proof fn lemma_ideal_add_grows(n: Seq<Node>, l: NodeId, r: NodeId, f: nat)
    requires
        operands_before(n),
        l.0 < n.len(),
        r.0 < n.len(),
        ideal_add(n, l, r, f).0.len() <= usize::MAX,
    ensures
        ideal_add(n, l, r, f).1.0 < ideal_add(n, l, r, f).0.len(),
        operands_before(ideal_add(n, l, r, f).0),
        ideal_add(n, l, r, f).2 <= f,
    decreases f, 1nat,
{
    reveal(ideal_add);
    reveal(add_res);
    let out = ideal_add(n, l, r, f);
    if f == 0 {
        lemma_after_insert_grows(n, Node::Add(l, r));
    } else {
        let g = (f - 1) as nat;
        let ln = n[l.0 as int];
        let rn0 = n[r.0 as int];
        assert(children_below(n[l.0 as int], l.0 as int));
        assert(children_below(n[r.0 as int], r.0 as int));
        if rn0 is Add && ln is Add {
            let t1 = ideal_add(n, l, rn0->Add_0, g);
            lemma_ideal_add_grown(t1.0, t1.1, rn0->Add_1, capped(t1.2, g));
            lemma_ideal_add_grown(n, l, rn0->Add_0, g);
            lemma_ideal_add_grows(n, l, rn0->Add_0, g);
            lemma_ideal_add_grows(t1.0, t1.1, rn0->Add_1, capped(t1.2, g));
        } else {
            let lx = if rn0 is Add { r } else { l };
            let rx = if rn0 is Add { l } else { r };
            assert(children_below(n[lx.0 as int], lx.0 as int));
            let tail = if n[lx.0 as int] is Add { Some(n[lx.0 as int]->Add_0) } else { None::<NodeId> };
            let head = if n[lx.0 as int] is Add { n[lx.0 as int]->Add_1 } else { lx };
            let hn = n[head.0 as int];
            let rn = n[rx.0 as int];
            if hn is Const && !(rn is Const) && hn != Node::Const(0) {
                if let Some(t) = tail {
                    let t1 = ideal_add(n, t, rx, g);
                    lemma_ideal_add_grown(t1.0, t1.1, head, capped(t1.2, g));
                    lemma_ideal_add_grown(n, t, rx, g);
                    lemma_ideal_add_grows(n, t, rx, g);
                    lemma_ideal_add_grows(t1.0, t1.1, head, capped(t1.2, g));
                } else {
                    lemma_after_insert_grows(n, Node::Add(rx, head));
                }
            } else if !(hn is Const) && rn != Node::Const(0) && head != rx && !(hn is Mul && hn->Mul_0 == rx)
                && !(rn is Mul && rn->Mul_0 == head) {
                lemma_after_insert_grows(n, Node::Add(lx, rx));
            } else {
                let t = add_res(n, head, rx, g);
                let idealize = !(!(hn is Const && rn is Const) && rn == Node::Const(0));
                lemma_add_res_grown(n, head, rx, g);
                if let Some(tt) = tail {
                    if t.1 != head {
                        if idealize {
                            lemma_ideal_add_grown(t.0, tt, t.1, capped(t.2, g));
                        } else {
                            lemma_after_insert_grown(t.0, Node::Add(tt, t.1));
                        }
                    }
                }
                assert(t.0.take(t.0.len() as int) =~= t.0);
                lemma_add_res_grows(n, head, rx, g);
                if let Some(tt) = tail {
                    if t.1 != head {
                        if idealize {
                            lemma_ideal_add_grows(t.0, tt, t.1, capped(t.2, g));
                        } else {
                            lemma_after_insert_grows(t.0, Node::Add(tt, t.1));
                        }
                    }
                }
            }
        }
    }
}

/// Combining two addends again, in a duplicate-free sequence `m` that holds
/// what the first time gave, leaves `m` and gives the same ID and budget.
proof fn lemma_add_res_stable(n: Seq<Node>, head: NodeId, r: NodeId, f: nat, m: Seq<Node>)
    requires
        operands_before(n),
        head.0 < n.len(),
        r.0 < n.len(),
        combinable(n, head, r),
        grown(add_res(n, head, r, f).0, m),
        unique_nodes(m),
        m.len() <= usize::MAX,
    ensures
        add_res(m, head, r, f) == (m, add_res(n, head, r, f).1, add_res(n, head, r, f).2),
    decreases f, 2nat,
{
    reveal(add_res);
    reveal(ideal_add);
    let out = add_res(n, head, r, f);
    lemma_add_res_grown(n, head, r, f);
    lemma_grown_trans(n, out.0, m);
    let hn = n[head.0 as int];
    let rn = n[r.0 as int];
    assert(children_below(n[head.0 as int], head.0 as int));
    assert(children_below(n[r.0 as int], r.0 as int));
    lemma_grown_index(n, m, head.0 as int);
    lemma_grown_index(n, m, r.0 as int);
    if hn is Const && rn is Const {
        lemma_after_insert_stable(n, Node::Const(add8(const_value(hn), const_value(rn)) as u8), m);
    } else if rn == Node::Const(0) || hn == Node::Const(0) {
    } else if head == r {
        let p = after_insert(n, Node::Const(2));
        lemma_ideal_mul_grown(p.0, head, p.1, f);
        lemma_grown_trans(p.0, out.0, m);
        lemma_after_insert_grows(n, Node::Const(2));
        lemma_after_insert_stable(n, Node::Const(2), m);
        lemma_ideal_mul_stable(p.0, head, p.1, f, m);
    } else if hn is Mul && hn->Mul_0 == r {
        let p = after_insert(n, Node::Const(1));
        let t2 = ideal_add(p.0, hn->Mul_1, p.1, f);
        lemma_ideal_mul_grown(t2.0, hn->Mul_0, t2.1, capped(t2.2, f));
        lemma_ideal_add_grown(p.0, hn->Mul_1, p.1, f);
        lemma_grown_trans(t2.0, out.0, m);
        lemma_grown_trans(p.0, t2.0, m);
        lemma_after_insert_grows(n, Node::Const(1));
        lemma_after_insert_stable(n, Node::Const(1), m);
        lemma_ideal_add_grows(p.0, hn->Mul_1, p.1, f);
        lemma_ideal_add_stable(p.0, hn->Mul_1, p.1, f, m);
        lemma_ideal_mul_stable(t2.0, hn->Mul_0, t2.1, capped(t2.2, f), m);
    } else {
        let p = after_insert(n, Node::Const(1));
        let t2 = ideal_add(p.0, rn->Mul_1, p.1, f);
        lemma_ideal_mul_grown(t2.0, head, t2.1, capped(t2.2, f));
        lemma_ideal_add_grown(p.0, rn->Mul_1, p.1, f);
        lemma_grown_trans(t2.0, out.0, m);
        lemma_grown_trans(p.0, t2.0, m);
        lemma_after_insert_grows(n, Node::Const(1));
        lemma_after_insert_stable(n, Node::Const(1), m);
        lemma_ideal_add_grows(p.0, rn->Mul_1, p.1, f);
        lemma_ideal_add_stable(p.0, rn->Mul_1, p.1, f, m);
        lemma_ideal_mul_stable(t2.0, head, t2.1, capped(t2.2, f), m);
    }
}

/// Idealizing a sum again, in a duplicate-free sequence `m` that holds what
/// the first time gave, leaves `m` and gives the same ID and budget.
#[verifier::spinoff_prover]
#[verifier::rlimit(60)]
proof fn lemma_ideal_add_stable(n: Seq<Node>, l: NodeId, r: NodeId, f: nat, m: Seq<Node>)
    requires
        operands_before(n),
        l.0 < n.len(),
        r.0 < n.len(),
        grown(ideal_add(n, l, r, f).0, m),
        unique_nodes(m),
        m.len() <= usize::MAX,
    ensures
        ideal_add(m, l, r, f) == (m, ideal_add(n, l, r, f).1, ideal_add(n, l, r, f).2),
    decreases f, 1nat,
{
    reveal(ideal_add);
    reveal(add_res);
    let out = ideal_add(n, l, r, f);
    lemma_ideal_add_grown(n, l, r, f);
    lemma_grown_trans(n, out.0, m);
    if f == 0 {
        lemma_after_insert_stable(n, Node::Add(l, r), m);
    } else {
        let g = (f - 1) as nat;
        let ln = n[l.0 as int];
        let rn0 = n[r.0 as int];
        assert(children_below(n[l.0 as int], l.0 as int));
        assert(children_below(n[r.0 as int], r.0 as int));
        lemma_grown_index(n, m, l.0 as int);
        lemma_grown_index(n, m, r.0 as int);
        if rn0 is Add && ln is Add {
            let t1 = ideal_add(n, l, rn0->Add_0, g);
            lemma_ideal_add_grown(t1.0, t1.1, rn0->Add_1, capped(t1.2, g));
            lemma_grown_trans(t1.0, out.0, m);
            lemma_ideal_add_grown(n, l, rn0->Add_0, g);
            lemma_ideal_add_grows(n, l, rn0->Add_0, g);
            lemma_ideal_add_stable(n, l, rn0->Add_0, g, m);
            lemma_ideal_add_stable(t1.0, t1.1, rn0->Add_1, capped(t1.2, g), m);
        } else {
            let lx = if rn0 is Add { r } else { l };
            let rx = if rn0 is Add { l } else { r };
            assert(children_below(n[lx.0 as int], lx.0 as int));
            let tail = if n[lx.0 as int] is Add { Some(n[lx.0 as int]->Add_0) } else { None::<NodeId> };
            let head = if n[lx.0 as int] is Add { n[lx.0 as int]->Add_1 } else { lx };
            lemma_grown_index(n, m, head.0 as int);
            let hn = n[head.0 as int];
            let rn = n[rx.0 as int];
            if hn is Const && !(rn is Const) && hn != Node::Const(0) {
                if let Some(t) = tail {
                    let t1 = ideal_add(n, t, rx, g);
                    lemma_ideal_add_grown(t1.0, t1.1, head, capped(t1.2, g));
                    lemma_grown_trans(t1.0, out.0, m);
                    lemma_ideal_add_grown(n, t, rx, g);
                    lemma_ideal_add_grows(n, t, rx, g);
                    lemma_ideal_add_stable(n, t, rx, g, m);
                    lemma_ideal_add_stable(t1.0, t1.1, head, capped(t1.2, g), m);
                } else {
                    lemma_after_insert_stable(n, Node::Add(rx, head), m);
                }
            } else if !(hn is Const) && rn != Node::Const(0) && head != rx && !(hn is Mul && hn->Mul_0 == rx)
                && !(rn is Mul && rn->Mul_0 == head) {
                lemma_after_insert_stable(n, Node::Add(lx, rx), m);
            } else {
                let t = add_res(n, head, rx, g);
                let idealize = !(!(hn is Const && rn is Const) && rn == Node::Const(0));
                if let Some(tt) = tail {
                    if t.1 != head {
                        if idealize {
                            lemma_ideal_add_grown(t.0, tt, t.1, capped(t.2, g));
                        } else {
                            lemma_after_insert_grown(t.0, Node::Add(tt, t.1));
                        }
                    }
                }
                assert(t.0.take(t.0.len() as int) =~= t.0);
                lemma_grown_trans(t.0, out.0, m);
                lemma_add_res_grown(n, head, rx, g);
                lemma_add_res_grows(n, head, rx, g);
                lemma_add_res_stable(n, head, rx, g, m);
                if let Some(tt) = tail {
                    if t.1 != head {
                        if idealize {
                            lemma_ideal_add_stable(t.0, tt, t.1, capped(t.2, g), m);
                        } else {
                            lemma_after_insert_stable(t.0, Node::Add(tt, t.1), m);
                        }
                    }
                }
            }
        }
    }
}

/// Inserting a node in its ideal representation grows the nodes.
pub(crate) proof fn lemma_ideal_insert_grown(n: Seq<Node>, node: Node)
    ensures
        grown(n, ideal_insert(n, node).0),
{
    match node {
        Node::Add(l, r) => lemma_ideal_add_grown(n, l, r, IDEALIZE_BUDGET as nat),
        Node::Mul(l, r) => lemma_ideal_mul_grown(n, l, r, IDEALIZE_BUDGET as nat),
        _ => lemma_after_insert_grown(n, node),
    }
}

/// Inserting a node in its ideal representation keeps operands before their
/// nodes and gives an ID in range.
pub(crate) proof fn lemma_ideal_insert_grows(n: Seq<Node>, node: Node)
    requires
        operands_before(n),
        children_below(node, n.len() as int),
        ideal_insert(n, node).0.len() <= usize::MAX,
    ensures
        ideal_insert(n, node).1.0 < ideal_insert(n, node).0.len(),
        operands_before(ideal_insert(n, node).0),
{
    match node {
        Node::Add(l, r) => lemma_ideal_add_grows(n, l, r, IDEALIZE_BUDGET as nat),
        Node::Mul(l, r) => lemma_ideal_mul_grows(n, l, r, IDEALIZE_BUDGET as nat),
        _ => lemma_after_insert_grows(n, node),
    }
}

/// Inserting a node in its ideal representation again, in a duplicate-free
/// sequence `m` that holds what the first time gave, leaves `m` and gives
/// the same ID.
pub(crate) proof fn lemma_ideal_insert_stable(n: Seq<Node>, node: Node, m: Seq<Node>)
    requires
        operands_before(n),
        children_below(node, n.len() as int),
        grown(ideal_insert(n, node).0, m),
        unique_nodes(m),
        m.len() <= usize::MAX,
    ensures
        ideal_insert(m, node) == (m, ideal_insert(n, node).1),
{
    match node {
        Node::Add(l, r) => lemma_ideal_add_stable(n, l, r, IDEALIZE_BUDGET as nat, m),
        Node::Mul(l, r) => lemma_ideal_mul_stable(n, l, r, IDEALIZE_BUDGET as nat, m),
        _ => lemma_after_insert_stable(n, node, m),
    }
}

/// Inserting a node twice, in its ideal representation, gives the same ID
/// the second time and leaves the nodes as the first time left them.
pub proof fn lemma_ideal_insert_twice(nodes: Seq<Node>, node: Node)
    requires
        operands_before(nodes),
        children_below(node, nodes.len() as int),
        unique_nodes(ideal_insert(nodes, node).0),
        ideal_insert(nodes, node).0.len() <= usize::MAX,
    ensures
        ideal_insert(ideal_insert(nodes, node).0, node) == ideal_insert(nodes, node),
{
    let out = ideal_insert(nodes, node);
    assert(out.0.take(out.0.len() as int) =~= out.0);
    match node {
        Node::Add(l, r) => lemma_ideal_add_stable(nodes, l, r, IDEALIZE_BUDGET as nat, out.0),
        Node::Mul(l, r) => lemma_ideal_mul_stable(nodes, l, r, IDEALIZE_BUDGET as nat, out.0),
        _ => lemma_after_insert_stable(nodes, node, out.0),
    }
}

/// Structurally equivalent nodes are deduplicated: inserting a node into the
/// graph `g1` that inserting it into `g0` gave returns the same ID and
/// leaves `g1` as it is.
pub proof fn lemma_node_insert_twice(g0: &Graph, g1: &Graph, node: Node, id: NodeId)
    requires
        g0.wf(),
        g1.wf(),
        children_below(node, g0@.len() as int),
        (g1@, id) == ideal_insert(g0@, node),
    ensures
        ideal_insert(g1@, node) == (g1@, id),
{
    g0.lemma_wf_nodes();
    g1.lemma_wf_nodes();
    assert forall|i: int, j: int| 0 <= i < j < g1@.len() implies #[trigger] g1@[i] != #[trigger] g1@[j] by {
        if g1@[i] == g1@[j] {
            g1.lemma_node_ids_unique(NodeId(i as usize), NodeId(j as usize));
        }
    }
    lemma_ideal_insert_twice(g0@, node);
}

/// The value of node `a` in `g2` equals that of node `b` in `g1`.
pub open spec fn same_id_value(g2: &Graph, a: NodeId, g1: &Graph, b: NodeId) -> bool {
    forall|copy: spec_fn(Offset, BlockId) -> u8, input: spec_fn(InputId) -> u8|
        #[trigger] eval(g2@, a, copy, input) == eval(g1@, b, copy, input)
}

impl Node {
    /// Inserts this node into the e-graph, without idealizing. The node must
    /// already be idealized. Any structurally equivalent nodes are deduplicated
    /// and receive the same ID.
    pub fn insert_ideal(self, g: &mut Graph) -> (id: NodeId)
        requires
            old(g).wf(),
            children_below(self, old(g)@.len() as int),
        ensures
            inserted(final(g), old(g), 0, 0),
            (id.0 as int) < final(g)@.len(),
            final(g)@[id.0 as int] == self,
            same_value(final(g)@, id, old(g)@, self),
            old(g)@.contains(self) ==> *final(g) == *old(g),
            !old(g)@.contains(self) ==> final(g)@ == old(g)@.push(self),
            forall|i: int| 0 <= i < final(g)@.len() && final(g)@[i] == self ==> i == id.0,
            (final(g)@, id) == after_insert(old(g)@, self),
    {
        let id = g.insert(self);
        proof {
            g.lemma_extends(old(g));
            assert(old(g)@.len() <= g@.len());
            assert forall|copy: spec_fn(Offset, BlockId) -> u8, input: spec_fn(InputId) -> u8|
                #[trigger] eval(g@, id, copy, input) == eval_node(old(g)@, self, copy, input) by {
                lemma_eval_wf(g, id, copy, input);
                lemma_eval_node_extend(old(g)@, g@, self, copy, input);
            }
        }
        id
    }
}

/// A graph that extends another keeps the values of its nodes.
pub proof fn lemma_extends_value(g1: &Graph, g2: &Graph, x: NodeId)
    requires
        g2.extends(g1),
        x.0 < g1@.len(),
    ensures
        same_id_value(g2, x, g1, x),
{
    g2.lemma_extends(g1);
    assert forall|copy: spec_fn(Offset, BlockId) -> u8, input: spec_fn(InputId) -> u8|
        #[trigger] eval(g2@, x, copy, input) == eval(g1@, x, copy, input) by {
        lemma_eval_extend(g1@, g2@, x, copy, input);
    }
}

/// Chaining two insertions keeps the graph counters and the budget.
proof fn lemma_inserted_chain(g0: &Graph, g1: &Graph, g2: &Graph, f0: u64, f1: u64, f2: u64)
    requires
        g1.extends(g0),
        inserted(g2, g1, f2, f1),
        g1.spec_next_block() == g0.spec_next_block(),
        g1.spec_next_input() == g0.spec_next_input(),
        f1 <= f0,
    ensures
        inserted(g2, g0, f2, f0),
{
    Graph::lemma_extends_trans(g0, g1, g2);
    g1.lemma_extends(g0);
}

/// Inserts the product of two nodes, in its ideal representation.
#[verifier::spinoff_prover]
#[verifier::rlimit(100)]
fn insert_mul(lhs: NodeId, rhs: NodeId, g: &mut Graph, fuel: &mut u64) -> (id: NodeId)
    requires
        old(g).wf(),
        lhs.0 < old(g)@.len(),
        rhs.0 < old(g)@.len(),
    ensures
        inserted(final(g), old(g), *final(fuel), *old(fuel)),
        id.0 < final(g)@.len(),
        same_value(final(g)@, id, old(g)@, Node::Mul(lhs, rhs)),
        *old(fuel) > 0 && old(g)@[lhs.0 as int] is Const && old(g)@[rhs.0 as int] is Const
            ==> final(g)@[id.0 as int] == Node::Const(
            mul8(const_value(old(g)@[lhs.0 as int]), const_value(old(g)@[rhs.0 as int])) as u8,
        ),
        (final(g)@, id, *final(fuel) as nat) == ideal_mul(old(g)@, lhs, rhs, *old(fuel) as nat),
    decreases *old(fuel),
{
    let ghost g0: Graph = *g;
    let ghost f0: u64 = *fuel;
    let ghost lhs0 = lhs;
    let ghost rhs0 = rhs;
    if *fuel == 0 {
        return Node::Mul(lhs, rhs).insert_ideal(g);
    }
    *fuel = *fuel - 1;
    let mut lhs = lhs;
    let mut rhs = rhs;
    proof {
        g.lemma_extends_refl();
    }
    if let Node::Mul(b, c) = *g.index(rhs) {
        proof {
            g.lemma_wf_nodes();
            assert(children_below(g@[rhs.0 as int], rhs.0 as int));
        }
        if let Node::Mul(..) = *g.index(lhs) {
            let x = insert_mul(lhs, b, g, fuel);
            let ghost g1: Graph = *g;
            let ghost f1: u64 = *fuel;
            let y = insert_mul(x, c, g, fuel);
            proof {
                lemma_inserted_chain(&g0, &g1, g, f0, f1, *fuel);
                lemma_extends_value(&g0, &g1, lhs);
                lemma_extends_value(&g0, &g1, c);
                assert forall|copy: spec_fn(Offset, BlockId) -> u8, input: spec_fn(InputId) -> u8|
                    #[trigger] eval(g@, y, copy, input) == eval_node(g0@, Node::Mul(lhs, rhs), copy, input) by {
                    assert(eval(g1@, x, copy, input) == eval_node(g0@, Node::Mul(lhs, b), copy, input));
                    assert(eval(g@, y, copy, input) == eval_node(g1@, Node::Mul(x, c), copy, input));
                    assert(eval(g1@, c, copy, input) == eval(g0@, c, copy, input));
                    lemma_eval_wf(&g0, rhs, copy, input);
                    lemma_mul8_props(eval(g0@, lhs, copy, input), eval(g0@, b, copy, input), eval(g0@, c, copy, input));
                }
            }
            proof {
                assert(g0@[rhs0.0 as int] is Mul);
            }
            return y;
        }
        let t = lhs;
        lhs = rhs;
        rhs = t;
    }
    proof {
        assert(g0@[rhs0.0 as int] is Const ==> lhs == lhs0 && rhs == rhs0);
    }
    proof {
        assert forall|copy: spec_fn(Offset, BlockId) -> u8, input: spec_fn(InputId) -> u8|
            #[trigger] eval_node(g0@, Node::Mul(lhs, rhs), copy, input) == eval_node(g0@, Node::Mul(lhs0, rhs0), copy, input) by {
            lemma_mul8_props(eval(g0@, lhs, copy, input), eval(g0@, rhs, copy, input), 0);
        }
        g.lemma_wf_nodes();
        assert(children_below(g@[lhs.0 as int], lhs.0 as int));
    }
    let ghost target = Node::Mul(lhs, rhs);
    let (tail, head) = match *g.index(lhs) {
        Node::Mul(a, b) => (Some(a), b),
        _ => (None, lhs),
    };
    proof {
        assert(head.0 < g@.len());
        assert(tail matches Some(t) ==> t.0 < g@.len() && g0@[lhs.0 as int] == Node::Mul(t, head));
        assert(tail is None ==> head == lhs);
        assert forall|copy: spec_fn(Offset, BlockId) -> u8, input: spec_fn(InputId) -> u8|
            (#[trigger] eval(g0@, lhs, copy, input)) == (match tail {
                Some(t) => mul8(eval(g0@, t, copy, input), eval(g0@, head, copy, input)),
                None => eval(g0@, head, copy, input),
            }) by {
            lemma_eval_wf(&g0, lhs, copy, input);
        }
    }
    let hn = *g.index(head);
    let rn = *g.index(rhs);
    proof {
        assert(g0@[lhs0.0 as int] is Const && g0@[rhs0.0 as int] is Const ==> hn is Const && rn is Const);
    }
    proof {
        assert forall|copy: spec_fn(Offset, BlockId) -> u8, input: spec_fn(InputId) -> u8|
            (hn matches Node::Const(k) ==> #[trigger] eval(g0@, head, copy, input) == k)
            && (rn matches Node::Const(k) ==> #[trigger] eval(g0@, rhs, copy, input) == k) by {
            lemma_eval_wf(&g0, head, copy, input);
            lemma_eval_wf(&g0, rhs, copy, input);
        }
    }
    let res;
    let idealize;
    if let (Node::Const(a), Node::Const(b)) = (hn, rn) {
        res = Node::Const(a.wrapping_mul(b)).insert_ideal(g);
        idealize = true;
        proof {
            assert(a.wrapping_mul(b) == mul8(a as int, b as int) as u8);
        }
    } else if rn == Node::Const(1) {
        res = head;
        idealize = false;
    } else if hn == Node::Const(1) {
        res = rhs;
        idealize = true;
    } else if rn == Node::Const(0) || hn == Node::Const(0) {
        let z = Node::Const(0).insert_ideal(g);
        proof {
            assert forall|copy: spec_fn(Offset, BlockId) -> u8, input: spec_fn(InputId) -> u8|
                #[trigger] eval(g@, z, copy, input) == eval_node(g0@, Node::Mul(lhs0, rhs0), copy, input) by {
                let el = eval(g0@, lhs, copy, input);
                let er = eval(g0@, rhs, copy, input);
                lemma_mul8_props(el, er, 0);
                lemma_mul8_props(er, el, 0);
                if let Some(t) = tail {
                    lemma_mul8_props(eval(g0@, t, copy, input), eval(g0@, head, copy, input), 0);
                }
            }
        }
        return z;
    } else if let Node::Const(_) = hn {
        match tail {
            Some(tail) => {
                let x = insert_mul(tail, rhs, g, fuel);
                let ghost g1: Graph = *g;
                let ghost f1: u64 = *fuel;
                let y = insert_mul(x, head, g, fuel);
                proof {
                    lemma_inserted_chain(&g0, &g1, g, f0, f1, *fuel);
                    lemma_extends_value(&g0, &g1, head);
                    assert forall|copy: spec_fn(Offset, BlockId) -> u8, input: spec_fn(InputId) -> u8|
                        #[trigger] eval(g@, y, copy, input) == eval_node(g0@, Node::Mul(lhs0, rhs0), copy, input) by {
                        assert(eval(g1@, x, copy, input) == eval_node(g0@, Node::Mul(tail, rhs), copy, input));
                        assert(eval(g@, y, copy, input) == eval_node(g1@, Node::Mul(x, head), copy, input));
                        assert(eval(g1@, head, copy, input) == eval(g0@, head, copy, input));
                        let et = eval(g0@, tail, copy, input);
                        let eh = eval(g0@, head, copy, input);
                        let er = eval(g0@, rhs, copy, input);
                        lemma_mul8_props(et, er, eh);
                        lemma_mul8_props(et, eh, er);
                        lemma_mul8_props(er, eh, 0);
                        lemma_mul8_props(mul8(et, eh), er, 0);
                    }
                }
                return y;
            },
            None => {
                let z = Node::Mul(rhs, head).insert_ideal(g);
                proof {
                    assert forall|copy: spec_fn(Offset, BlockId) -> u8, input: spec_fn(InputId) -> u8|
                        #[trigger] eval(g@, z, copy, input) == eval_node(g0@, Node::Mul(lhs0, rhs0), copy, input) by {
                        assert(eval(g@, z, copy, input) == eval_node(g0@, Node::Mul(rhs, head), copy, input));
                        lemma_mul8_props(eval(g0@, rhs, copy, input), eval(g0@, head, copy, input), 0);
                    }
                }
                return z;
            },
        }
    } else {
        let z = Node::Mul(lhs, rhs).insert_ideal(g);
        proof {
            assert forall|copy: spec_fn(Offset, BlockId) -> u8, input: spec_fn(InputId) -> u8|
                #[trigger] eval(g@, z, copy, input) == eval_node(g0@, Node::Mul(lhs0, rhs0), copy, input) by {
                assert(eval(g@, z, copy, input) == eval_node(g0@, Node::Mul(lhs, rhs), copy, input));
            }
        }
        return z;
    }
    let ghost g1: Graph = *g;
    let ghost f1: u64 = *fuel;
    proof {
        assert(g1.extends(&g0));
        assert forall|copy: spec_fn(Offset, BlockId) -> u8, input: spec_fn(InputId) -> u8|
            #[trigger] eval(g1@, res, copy, input) == mul8(eval(g0@, head, copy, input), eval(g0@, rhs, copy, input)) by {
            let eh = eval(g0@, head, copy, input);
            let er = eval(g0@, rhs, copy, input);
            lemma_mul8_props(eh, er, 0);
            lemma_mul8_props(er, eh, 0);
            if res == head || res == rhs {
                lemma_extends_value(&g0, &g1, res);
                assert(eval(g1@, res, copy, input) == eval(g0@, res, copy, input));
            } else {
                lemma_eval_wf(&g1, res, copy, input);
            }
        }
    }
    match tail {
        Some(tail) => {
            if res == head {
                proof {
                    assert forall|copy: spec_fn(Offset, BlockId) -> u8, input: spec_fn(InputId) -> u8|
                        #[trigger] eval(g@, lhs, copy, input) == eval_node(g0@, Node::Mul(lhs0, rhs0), copy, input) by {
                        lemma_extends_value(&g0, &g1, lhs);
                        assert(eval(g1@, res, copy, input) == eval(g1@, head, copy, input));
                        lemma_extends_value(&g0, &g1, head);
                        let et = eval(g0@, tail, copy, input);
                        let eh = eval(g0@, head, copy, input);
                        let er = eval(g0@, rhs, copy, input);
                        lemma_mul8_props(et, eh, er);
                        lemma_mul8_props(eh, er, 0);
                    }
                }
                lhs
            } else if idealize {
                let y = insert_mul(tail, res, g, fuel);
                proof {
                    lemma_inserted_chain(&g0, &g1, g, f0, f1, *fuel);
                    assert forall|copy: spec_fn(Offset, BlockId) -> u8, input: spec_fn(InputId) -> u8|
                        #[trigger] eval(g@, y, copy, input) == eval_node(g0@, Node::Mul(lhs0, rhs0), copy, input) by {
                        assert(eval(g@, y, copy, input) == eval_node(g1@, Node::Mul(tail, res), copy, input));
                        lemma_extends_value(&g0, &g1, tail);
                        assert(eval(g1@, tail, copy, input) == eval(g0@, tail, copy, input));
                        assert(eval(g1@, res, copy, input) == mul8(eval(g0@, head, copy, input), eval(g0@, rhs, copy, input)));
                        let et = eval(g0@, tail, copy, input);
                        let eh = eval(g0@, head, copy, input);
                        let er = eval(g0@, rhs, copy, input);
                        lemma_mul8_props(et, eh, er);
                        assert(eval(g0@, lhs, copy, input) == mul8(et, eh));
                        assert(eval_node(g0@, Node::Mul(lhs, rhs), copy, input) == eval_node(g0@, Node::Mul(lhs0, rhs0), copy, input));
                    }
                }
                y
            } else {
                let y = Node::Mul(tail, res).insert_ideal(g);
                proof {
                    lemma_inserted_chain(&g0, &g1, g, f0, f1, *fuel);
                    assert forall|copy: spec_fn(Offset, BlockId) -> u8, input: spec_fn(InputId) -> u8|
                        #[trigger] eval(g@, y, copy, input) == eval_node(g0@, Node::Mul(lhs0, rhs0), copy, input) by {
                        assert(eval(g@, y, copy, input) == eval_node(g1@, Node::Mul(tail, res), copy, input));
                        lemma_extends_value(&g0, &g1, tail);
                        assert(eval(g1@, tail, copy, input) == eval(g0@, tail, copy, input));
                        assert(eval(g1@, res, copy, input) == mul8(eval(g0@, head, copy, input), eval(g0@, rhs, copy, input)));
                        let et = eval(g0@, tail, copy, input);
                        let eh = eval(g0@, head, copy, input);
                        let er = eval(g0@, rhs, copy, input);
                        lemma_mul8_props(et, eh, er);
                        assert(eval(g0@, lhs, copy, input) == mul8(et, eh));
                        assert(eval_node(g0@, Node::Mul(lhs, rhs), copy, input) == eval_node(g0@, Node::Mul(lhs0, rhs0), copy, input));
                    }
                }
                y
            }
        },
        None => {
            proof {
                assert forall|copy: spec_fn(Offset, BlockId) -> u8, input: spec_fn(InputId) -> u8|
                    #[trigger] eval(g@, res, copy, input) == eval_node(g0@, Node::Mul(lhs0, rhs0), copy, input) by {
                    assert(eval(g1@, res, copy, input) == mul8(eval(g0@, head, copy, input), eval(g0@, rhs, copy, input)));
                }
            }
            res
        },
    }
}

/// Combines the last addend `head` of a sum with its right operand `rhs` by
/// the rule of `add_res` that applies.
#[verifier::spinoff_prover]
#[verifier::rlimit(100)]
fn add_combine(head: NodeId, rhs: NodeId, g: &mut Graph, fuel: &mut u64) -> (res: NodeId)
    requires
        old(g).wf(),
        head.0 < old(g)@.len(),
        rhs.0 < old(g)@.len(),
        ({
            let hn = old(g)@[head.0 as int];
            let rn = old(g)@[rhs.0 as int];
            (hn is Const && rn is Const) || rn == Node::Const(0) || hn == Node::Const(0) || head == rhs
                || (hn is Mul && hn->Mul_0 == rhs) || (rn is Mul && rn->Mul_0 == head)
        }),
    ensures
        inserted(final(g), old(g), *final(fuel), *old(fuel)),
        res.0 < final(g)@.len(),
        forall|copy: spec_fn(Offset, BlockId) -> u8, input: spec_fn(InputId) -> u8|
            #[trigger] eval(final(g)@, res, copy, input) == add8(
                eval(old(g)@, head, copy, input),
                eval(old(g)@, rhs, copy, input),
            ),
        (final(g)@, res, *final(fuel) as nat) == add_res(old(g)@, head, rhs, *old(fuel) as nat),
        old(g)@[head.0 as int] is Const && old(g)@[rhs.0 as int] is Const ==> final(g)@[res.0 as int]
            == Node::Const(add8(const_value(old(g)@[head.0 as int]), const_value(old(g)@[rhs.0 as int])) as u8),
    decreases *old(fuel), 2nat,
{
    let ghost g0: Graph = *g;
    let ghost f0: u64 = *fuel;
    proof {
        g.lemma_extends_refl();
        g.lemma_wf_nodes();
        assert(children_below(g@[head.0 as int], head.0 as int));
        assert(children_below(g@[rhs.0 as int], rhs.0 as int));
    }
    let hn = *g.index(head);
    let rn = *g.index(rhs);
    proof {
        assert forall|copy: spec_fn(Offset, BlockId) -> u8, input: spec_fn(InputId) -> u8|
            (hn matches Node::Const(k) ==> #[trigger] eval(g0@, head, copy, input) == k)
            && (rn matches Node::Const(k) ==> #[trigger] eval(g0@, rhs, copy, input) == k)
            && (hn matches Node::Mul(x, y) ==> eval(g0@, head, copy, input) == mul8(eval(g0@, x, copy, input), eval(g0@, y, copy, input)))
            && (rn matches Node::Mul(x, y) ==> eval(g0@, rhs, copy, input) == mul8(eval(g0@, x, copy, input), eval(g0@, y, copy, input))) by {
            lemma_eval_wf(&g0, head, copy, input);
            lemma_eval_wf(&g0, rhs, copy, input);
        }
    }
    let res;
    if let (Node::Const(a), Node::Const(b)) = (hn, rn) {
        res = Node::Const(a.wrapping_add(b)).insert_ideal(g);
        proof {
            assert(a.wrapping_add(b) == add8(a as int, b as int) as u8);
        }
        proof {
            assert((g@, res, *fuel as nat) == add_res(g0@, head, rhs, f0 as nat)) by {
                reveal(add_res);
            }
        }
    } else if rn == Node::Const(0) {
        res = head;
        proof {
            assert((g@, res, *fuel as nat) == add_res(g0@, head, rhs, f0 as nat)) by {
                reveal(add_res);
            }
        }
    } else if hn == Node::Const(0) {
        res = rhs;
        proof {
            assert((g@, res, *fuel as nat) == add_res(g0@, head, rhs, f0 as nat)) by {
                reveal(add_res);
            }
        }
    } else if head == rhs {
        let two = Node::Const(2).insert_ideal(g);
        let ghost g1: Graph = *g;
        let ghost f1: u64 = *fuel;
        res = insert_mul(head, two, g, fuel);
        proof {
            lemma_inserted_chain(&g0, &g1, g, f0, f1, *fuel);
            assert forall|copy: spec_fn(Offset, BlockId) -> u8, input: spec_fn(InputId) -> u8|
                #[trigger] eval(g@, res, copy, input) == add8(eval(g0@, head, copy, input), eval(g0@, rhs, copy, input)) by {
                assert(eval(g@, res, copy, input) == eval_node(g1@, Node::Mul(head, two), copy, input));
                lemma_eval_wf(&g1, two, copy, input);
                lemma_extends_value(&g0, &g1, head);
                assert(eval(g1@, head, copy, input) == eval(g0@, head, copy, input));
                lemma_mul8_props(eval(g0@, head, copy, input), 0, 0);
            }
        }
        proof {
            assert((g@, res, *fuel as nat) == add_res(g0@, head, rhs, f0 as nat)) by {
                reveal(add_res);
            }
        }
    } else if hn matches Node::Mul(x, _) && x == rhs {
        let Node::Mul(x, y) = hn else { vstd::pervasive::unreached() };
        let one = Node::Const(1).insert_ideal(g);
        let ghost g1: Graph = *g;
        let ghost f1: u64 = *fuel;
        let n = insert_add(y, one, g, fuel);
        let ghost g2: Graph = *g;
        let ghost f2: u64 = *fuel;
        res = insert_mul(x, n, g, fuel);
        proof {
            assert(children_below(g0@[head.0 as int], head.0 as int));
            lemma_inserted_chain(&g0, &g1, &g2, f0, f1, f2);
            lemma_inserted_chain(&g0, &g2, g, f0, f2, *fuel);
            assert forall|copy: spec_fn(Offset, BlockId) -> u8, input: spec_fn(InputId) -> u8|
                #[trigger] eval(g@, res, copy, input) == add8(eval(g0@, head, copy, input), eval(g0@, rhs, copy, input)) by {
                assert(eval(g@, res, copy, input) == eval_node(g2@, Node::Mul(x, n), copy, input));
                assert(eval(g2@, n, copy, input) == eval_node(g1@, Node::Add(y, one), copy, input));
                lemma_eval_wf(&g1, one, copy, input);
                lemma_extends_value(&g0, &g1, y);
                lemma_extends_value(&g0, &g2, x);
                assert(eval(g1@, y, copy, input) == eval(g0@, y, copy, input));
                assert(eval(g2@, x, copy, input) == eval(g0@, x, copy, input));
                lemma_mul8_props(eval(g0@, x, copy, input), eval(g0@, y, copy, input), 0);
            }
        }
        proof {
            assert((g@, res, *fuel as nat) == add_res(g0@, head, rhs, f0 as nat)) by {
                reveal(add_res);
            }
        }
    } else {
        assert(rn matches Node::Mul(b, _) && b == head);
        let Node::Mul(b, c) = rn else { vstd::pervasive::unreached() };
        let one = Node::Const(1).insert_ideal(g);
        let ghost g1: Graph = *g;
        let ghost f1: u64 = *fuel;
        let n = insert_add(c, one, g, fuel);
        let ghost g2: Graph = *g;
        let ghost f2: u64 = *fuel;
        res = insert_mul(b, n, g, fuel);
        proof {
            assert(children_below(g0@[rhs.0 as int], rhs.0 as int));
            lemma_inserted_chain(&g0, &g1, &g2, f0, f1, f2);
            lemma_inserted_chain(&g0, &g2, g, f0, f2, *fuel);
            assert forall|copy: spec_fn(Offset, BlockId) -> u8, input: spec_fn(InputId) -> u8|
                #[trigger] eval(g@, res, copy, input) == add8(eval(g0@, head, copy, input), eval(g0@, rhs, copy, input)) by {
                assert(eval(g@, res, copy, input) == eval_node(g2@, Node::Mul(b, n), copy, input));
                assert(eval(g2@, n, copy, input) == eval_node(g1@, Node::Add(c, one), copy, input));
                lemma_eval_wf(&g1, one, copy, input);
                lemma_extends_value(&g0, &g1, c);
                lemma_extends_value(&g0, &g2, b);
                assert(eval(g1@, c, copy, input) == eval(g0@, c, copy, input));
                assert(eval(g2@, b, copy, input) == eval(g0@, b, copy, input));
                lemma_mul8_props(eval(g0@, b, copy, input), eval(g0@, c, copy, input), 0);
                lemma_add8_props(eval(g0@, head, copy, input), eval(g0@, rhs, copy, input), 0);
            }
        }
        proof {
            assert((g@, res, *fuel as nat) == add_res(g0@, head, rhs, f0 as nat)) by {
                reveal(add_res);
            }
        }
    }
    proof {
        assert(g.extends(&g0));
        assert forall|copy: spec_fn(Offset, BlockId) -> u8, input: spec_fn(InputId) -> u8|
            #[trigger] eval(g@, res, copy, input) == add8(eval(g0@, head, copy, input), eval(g0@, rhs, copy, input)) by {
            let eh = eval(g0@, head, copy, input);
            let er = eval(g0@, rhs, copy, input);
            lemma_add8_props(eh, er, 0);
            lemma_add8_props(er, eh, 0);
            if res == head || res == rhs {
                lemma_extends_value(&g0, g, res);
                assert(eval(g@, res, copy, input) == eval(g0@, res, copy, input));
            } else if !(hn matches Node::Const(_) && rn matches Node::Const(_)) {
            } else {
                lemma_eval_wf(g, res, copy, input);
            }
        }
    }
    res
}

/// Inserts the sum of two nodes, in its ideal representation.
#[verifier::spinoff_prover]
#[verifier::rlimit(100)]
fn insert_add(lhs: NodeId, rhs: NodeId, g: &mut Graph, fuel: &mut u64) -> (id: NodeId)
    requires
        old(g).wf(),
        lhs.0 < old(g)@.len(),
        rhs.0 < old(g)@.len(),
    ensures
        inserted(final(g), old(g), *final(fuel), *old(fuel)),
        id.0 < final(g)@.len(),
        same_value(final(g)@, id, old(g)@, Node::Add(lhs, rhs)),
        *old(fuel) > 0 && old(g)@[lhs.0 as int] is Const && old(g)@[rhs.0 as int] is Const
            ==> final(g)@[id.0 as int] == Node::Const(
            add8(const_value(old(g)@[lhs.0 as int]), const_value(old(g)@[rhs.0 as int])) as u8,
        ),
        (final(g)@, id, *final(fuel) as nat) == ideal_add(old(g)@, lhs, rhs, *old(fuel) as nat),
    decreases *old(fuel), 1nat,
{
    let ghost g0: Graph = *g;
    let ghost f0: u64 = *fuel;
    let ghost lhs0 = lhs;
    let ghost rhs0 = rhs;
    if *fuel == 0 {
        let z = Node::Add(lhs, rhs).insert_ideal(g);
        proof {
            assert((g@, z, *fuel as nat) == ideal_add(g0@, lhs0, rhs0, f0 as nat)) by {
                reveal(ideal_add);
            }
        }
        proof {
            assert((g@, z, *fuel as nat) == ideal_add(g0@, lhs0, rhs0, f0 as nat)) by {
                reveal(ideal_add);
            }
        }
        return z;
    }
    *fuel = *fuel - 1;
    let mut lhs = lhs;
    let mut rhs = rhs;
    proof {
        g.lemma_extends_refl();
        g.lemma_wf_nodes();
    }
    if let Node::Add(b, c) = *g.index(rhs) {
        proof {
            assert(children_below(g@[rhs.0 as int], rhs.0 as int));
        }
        if let Node::Add(..) = *g.index(lhs) {
            let x = insert_add(lhs, b, g, fuel);
            let ghost g1: Graph = *g;
            let ghost f1: u64 = *fuel;
            let y = insert_add(x, c, g, fuel);
            proof {
                lemma_inserted_chain(&g0, &g1, g, f0, f1, *fuel);
                lemma_extends_value(&g0, &g1, c);
                assert forall|copy: spec_fn(Offset, BlockId) -> u8, input: spec_fn(InputId) -> u8|
                    #[trigger] eval(g@, y, copy, input) == eval_node(g0@, Node::Add(lhs0, rhs0), copy, input) by {
                    assert(eval(g1@, x, copy, input) == eval_node(g0@, Node::Add(lhs, b), copy, input));
                    assert(eval(g@, y, copy, input) == eval_node(g1@, Node::Add(x, c), copy, input));
                    assert(eval(g1@, c, copy, input) == eval(g0@, c, copy, input));
                    lemma_eval_wf(&g0, rhs, copy, input);
                    lemma_add8_props(eval(g0@, lhs, copy, input), eval(g0@, b, copy, input), eval(g0@, c, copy, input));
                }
            }
            proof {
                assert(g0@[rhs0.0 as int] is Add);
            }
            proof {
                assert((g@, y, *fuel as nat) == ideal_add(g0@, lhs0, rhs0, f0 as nat)) by {
                    reveal(ideal_add);
                }
            }
            return y;
        }
        let t = lhs;
        lhs = rhs;
        rhs = t;
    }
    proof {
        assert(g0@[rhs0.0 as int] is Const ==> lhs == lhs0 && rhs == rhs0);
    }
    proof {
        assert forall|copy: spec_fn(Offset, BlockId) -> u8, input: spec_fn(InputId) -> u8|
            #[trigger] eval_node(g0@, Node::Add(lhs, rhs), copy, input) == eval_node(g0@, Node::Add(lhs0, rhs0), copy, input) by {
            lemma_add8_props(eval(g0@, lhs, copy, input), eval(g0@, rhs, copy, input), 0);
        }
        assert(children_below(g@[lhs.0 as int], lhs.0 as int));
    }
    let (tail, head) = match *g.index(lhs) {
        Node::Add(a, b) => (Some(a), b),
        _ => (None, lhs),
    };
    proof {
        assert(head.0 < g@.len());
        assert(tail matches Some(t) ==> t.0 < g@.len() && g0@[lhs.0 as int] == Node::Add(t, head));
        assert(tail is None ==> head == lhs);
        assert forall|copy: spec_fn(Offset, BlockId) -> u8, input: spec_fn(InputId) -> u8|
            (#[trigger] eval(g0@, lhs, copy, input)) == (match tail {
                Some(t) => add8(eval(g0@, t, copy, input), eval(g0@, head, copy, input)),
                None => eval(g0@, head, copy, input),
            }) by {
            lemma_eval_wf(&g0, lhs, copy, input);
        }
        assert(children_below(g@[head.0 as int], head.0 as int));
        assert(children_below(g@[rhs.0 as int], rhs.0 as int));
    }
    let hn = *g.index(head);
    let rn = *g.index(rhs);
    proof {
        assert(lhs == (if g0@[rhs0.0 as int] is Add { rhs0 } else { lhs0 }));
        assert(rhs == (if g0@[rhs0.0 as int] is Add { lhs0 } else { rhs0 }));
        assert(tail == (if g0@[lhs.0 as int] is Add { Some(g0@[lhs.0 as int]->Add_0) } else { None::<NodeId> }));
        assert(head == (if g0@[lhs.0 as int] is Add { g0@[lhs.0 as int]->Add_1 } else { lhs }));
        assert(hn == g0@[head.0 as int] && rn == g0@[rhs.0 as int]);
    }
    proof {
        assert(g0@[lhs0.0 as int] is Const && g0@[rhs0.0 as int] is Const ==> hn is Const && rn is Const);
    }
    proof {
        assert forall|copy: spec_fn(Offset, BlockId) -> u8, input: spec_fn(InputId) -> u8|
            (hn matches Node::Const(k) ==> #[trigger] eval(g0@, head, copy, input) == k)
            && (rn matches Node::Const(k) ==> #[trigger] eval(g0@, rhs, copy, input) == k)
            && (hn matches Node::Mul(x, y) ==> eval(g0@, head, copy, input) == mul8(eval(g0@, x, copy, input), eval(g0@, y, copy, input)))
            && (rn matches Node::Mul(x, y) ==> eval(g0@, rhs, copy, input) == mul8(eval(g0@, x, copy, input), eval(g0@, y, copy, input))) by {
            lemma_eval_wf(&g0, head, copy, input);
            lemma_eval_wf(&g0, rhs, copy, input);
        }
    }
    let hn_const = matches!(hn, Node::Const(_));
    let rn_const = matches!(rn, Node::Const(_));
    let hn_mul_rhs = match hn {
        Node::Mul(x, _) => x == rhs,
        _ => false,
    };
    let rn_mul_head = match rn {
        Node::Mul(b, _) => b == head,
        _ => false,
    };
    if hn_const && !rn_const && hn != Node::Const(0) {
        match tail {
            Some(tail) => {
                let x = insert_add(tail, rhs, g, fuel);
                let ghost g1: Graph = *g;
                let ghost f1: u64 = *fuel;
                let y = insert_add(x, head, g, fuel);
                proof {
                    lemma_inserted_chain(&g0, &g1, g, f0, f1, *fuel);
                    lemma_extends_value(&g0, &g1, head);
                    assert forall|copy: spec_fn(Offset, BlockId) -> u8, input: spec_fn(InputId) -> u8|
                        #[trigger] eval(g@, y, copy, input) == eval_node(g0@, Node::Add(lhs0, rhs0), copy, input) by {
                        assert(eval(g1@, x, copy, input) == eval_node(g0@, Node::Add(tail, rhs), copy, input));
                        assert(eval(g@, y, copy, input) == eval_node(g1@, Node::Add(x, head), copy, input));
                        assert(eval(g1@, head, copy, input) == eval(g0@, head, copy, input));
                        let et = eval(g0@, tail, copy, input);
                        let eh = eval(g0@, head, copy, input);
                        let er = eval(g0@, rhs, copy, input);
                        lemma_add8_props(et, er, eh);
                        lemma_add8_props(et, eh, er);
                        lemma_add8_props(er, eh, 0);
                        assert(eval(g0@, lhs, copy, input) == add8(et, eh));
                        assert(eval_node(g0@, Node::Add(lhs, rhs), copy, input) == eval_node(g0@, Node::Add(lhs0, rhs0), copy, input));
                    }
                }
                proof {
                    assert((g@, y, *fuel as nat) == ideal_add(g0@, lhs0, rhs0, f0 as nat)) by {
                        reveal(ideal_add);
                    }
                }
                return y;
            },
            None => {
                let z = Node::Add(rhs, head).insert_ideal(g);
                proof {
                    assert forall|copy: spec_fn(Offset, BlockId) -> u8, input: spec_fn(InputId) -> u8|
                        #[trigger] eval(g@, z, copy, input) == eval_node(g0@, Node::Add(lhs0, rhs0), copy, input) by {
                        assert(eval(g@, z, copy, input) == eval_node(g0@, Node::Add(rhs, head), copy, input));
                        lemma_add8_props(eval(g0@, rhs, copy, input), eval(g0@, head, copy, input), 0);
                        assert(eval_node(g0@, Node::Add(lhs, rhs), copy, input) == eval_node(g0@, Node::Add(lhs0, rhs0), copy, input));
                    }
                }
                proof {
                    assert((g@, z, *fuel as nat) == ideal_add(g0@, lhs0, rhs0, f0 as nat)) by {
                        reveal(ideal_add);
                    }
                }
                return z;
            },
        }
    }
    if !hn_const && rn != Node::Const(0) && head != rhs && !hn_mul_rhs && !rn_mul_head {
        let z = Node::Add(lhs, rhs).insert_ideal(g);
        proof {
            assert forall|copy: spec_fn(Offset, BlockId) -> u8, input: spec_fn(InputId) -> u8|
                #[trigger] eval(g@, z, copy, input) == eval_node(g0@, Node::Add(lhs0, rhs0), copy, input) by {
                assert(eval(g@, z, copy, input) == eval_node(g0@, Node::Add(lhs, rhs), copy, input));
            }
        }
        proof {
            assert((g@, z, *fuel as nat) == ideal_add(g0@, lhs0, rhs0, f0 as nat)) by {
                reveal(ideal_add);
            }
        }
        return z;
    }
    proof {
        assert(*fuel as nat == (f0 - 1) as nat);
        lemma_extends_value(&g0, g, head);
    }
    let res = add_combine(head, rhs, g, fuel);
    let idealize = !(!(hn_const && rn_const) && rn == Node::Const(0));
    let ghost g1: Graph = *g;
    let ghost f1: u64 = *fuel;
    proof {
        assert(g1.extends(&g0));
    }
    match tail {
        Some(tail) => {
            if res == head {
                proof {
                    assert forall|copy: spec_fn(Offset, BlockId) -> u8, input: spec_fn(InputId) -> u8|
                        #[trigger] eval(g@, lhs, copy, input) == eval_node(g0@, Node::Add(lhs0, rhs0), copy, input) by {
                        lemma_extends_value(&g0, &g1, lhs);
                        assert(eval(g1@, res, copy, input) == eval(g1@, head, copy, input));
                        lemma_extends_value(&g0, &g1, head);
                        let et = eval(g0@, tail, copy, input);
                        let eh = eval(g0@, head, copy, input);
                        let er = eval(g0@, rhs, copy, input);
                        lemma_add8_props(et, eh, er);
                        lemma_add8_props(eh, er, 0);
                        assert(eval(g0@, lhs, copy, input) == add8(et, eh));
                        assert(eval_node(g0@, Node::Add(lhs, rhs), copy, input) == eval_node(g0@, Node::Add(lhs0, rhs0), copy, input));
                    }
                }
                proof {
                    assert((g@, lhs, *fuel as nat) == ideal_add(g0@, lhs0, rhs0, f0 as nat)) by {
                        reveal(ideal_add);
                    }
                }
                lhs
            } else if idealize {
                let y = insert_add(tail, res, g, fuel);
                proof {
                    lemma_inserted_chain(&g0, &g1, g, f0, f1, *fuel);
                    assert forall|copy: spec_fn(Offset, BlockId) -> u8, input: spec_fn(InputId) -> u8|
                        #[trigger] eval(g@, y, copy, input) == eval_node(g0@, Node::Add(lhs0, rhs0), copy, input) by {
                        assert(eval(g@, y, copy, input) == eval_node(g1@, Node::Add(tail, res), copy, input));
                        lemma_extends_value(&g0, &g1, tail);
                        assert(eval(g1@, tail, copy, input) == eval(g0@, tail, copy, input));
                        assert(eval(g1@, res, copy, input) == add8(eval(g0@, head, copy, input), eval(g0@, rhs, copy, input)));
                        let et = eval(g0@, tail, copy, input);
                        let eh = eval(g0@, head, copy, input);
                        let er = eval(g0@, rhs, copy, input);
                        lemma_add8_props(et, eh, er);
                        assert(eval(g0@, lhs, copy, input) == add8(et, eh));
                        assert(eval_node(g0@, Node::Add(lhs, rhs), copy, input) == eval_node(g0@, Node::Add(lhs0, rhs0), copy, input));
                    }
                }
                proof {
                    assert((g@, y, *fuel as nat) == ideal_add(g0@, lhs0, rhs0, f0 as nat)) by {
                        reveal(ideal_add);
                    }
                }
                y
            } else {
                let y = Node::Add(tail, res).insert_ideal(g);
                proof {
                    lemma_inserted_chain(&g0, &g1, g, f0, f1, *fuel);
                    assert forall|copy: spec_fn(Offset, BlockId) -> u8, input: spec_fn(InputId) -> u8|
                        #[trigger] eval(g@, y, copy, input) == eval_node(g0@, Node::Add(lhs0, rhs0), copy, input) by {
                        assert(eval(g@, y, copy, input) == eval_node(g1@, Node::Add(tail, res), copy, input));
                        lemma_extends_value(&g0, &g1, tail);
                        assert(eval(g1@, tail, copy, input) == eval(g0@, tail, copy, input));
                        assert(eval(g1@, res, copy, input) == add8(eval(g0@, head, copy, input), eval(g0@, rhs, copy, input)));
                        let et = eval(g0@, tail, copy, input);
                        let eh = eval(g0@, head, copy, input);
                        let er = eval(g0@, rhs, copy, input);
                        lemma_add8_props(et, eh, er);
                        assert(eval(g0@, lhs, copy, input) == add8(et, eh));
                        assert(eval_node(g0@, Node::Add(lhs, rhs), copy, input) == eval_node(g0@, Node::Add(lhs0, rhs0), copy, input));
                    }
                }
                proof {
                    assert((g@, y, *fuel as nat) == ideal_add(g0@, lhs0, rhs0, f0 as nat)) by {
                        reveal(ideal_add);
                    }
                }
                y
            }
        },
        None => {
            proof {
                assert forall|copy: spec_fn(Offset, BlockId) -> u8, input: spec_fn(InputId) -> u8|
                    #[trigger] eval(g@, res, copy, input) == eval_node(g0@, Node::Add(lhs0, rhs0), copy, input) by {
                    assert(eval(g1@, res, copy, input) == add8(eval(g0@, head, copy, input), eval(g0@, rhs, copy, input)));
                    assert(eval_node(g0@, Node::Add(lhs, rhs), copy, input) == eval_node(g0@, Node::Add(lhs0, rhs0), copy, input));
                }
            }
            proof {
                assert((g@, res, *fuel as nat) == ideal_add(g0@, lhs0, rhs0, f0 as nat)) by {
                    reveal(ideal_add);
                }
            }
            res
        },
    }
}

impl Node {
    /// Inserts this node into the e-graph and transforms it to its ideal
    /// representation. Any structurally equivalent nodes are deduplicated and
    /// receive the same ID.
    pub fn insert(self, g: &mut Graph) -> (id: NodeId)
        requires
            old(g).wf(),
            children_below(self, old(g)@.len() as int),
        ensures
            final(g).wf(),
            final(g).extends(old(g)),
            final(g).spec_next_block() == old(g).spec_next_block(),
            final(g).spec_next_input() == old(g).spec_next_input(),
            id.0 < final(g)@.len(),
            same_value(final(g)@, id, old(g)@, self),
            self matches Node::Add(l, r) ==> (old(g)@[l.0 as int] is Const && old(g)@[r.0 as int] is Const
                ==> final(g)@[id.0 as int] == Node::Const(
                add8(const_value(old(g)@[l.0 as int]), const_value(old(g)@[r.0 as int])) as u8,
            )),
            self matches Node::Mul(l, r) ==> (old(g)@[l.0 as int] is Const && old(g)@[r.0 as int] is Const
                ==> final(g)@[id.0 as int] == Node::Const(
                mul8(const_value(old(g)@[l.0 as int]), const_value(old(g)@[r.0 as int])) as u8,
            )),
            !(self is Add) && !(self is Mul) ==> final(g)@[id.0 as int] == self,
            !(self is Add) && !(self is Mul) && old(g)@.contains(self) ==> *final(g) == *old(g),
            !(self is Add) && !(self is Mul) ==> forall|i: int|
                0 <= i < final(g)@.len() && final(g)@[i] == self ==> i == id.0,
            (final(g)@, id) == ideal_insert(old(g)@, self),
    {
        let mut fuel = IDEALIZE_BUDGET;
        match self {
            Node::Add(lhs, rhs) => insert_add(lhs, rhs, g, &mut fuel),
            Node::Mul(lhs, rhs) => insert_mul(lhs, rhs, g, &mut fuel),
            _ => self.insert_ideal(g),
        }
    }
}
} // verus!
