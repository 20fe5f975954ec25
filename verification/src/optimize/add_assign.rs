//! Converting loops that add a constant to their counter to closed form.

use vstd::prelude::*;

use crate::block::{io_events, lemma_nodes_below_mono, lemma_pure_block_no_io, memory_below, Block, IoEvent};
use crate::egraph::{Graph, NodeId};
use crate::node::{
    add8, eval, ideal_insert, lemma_eval_extend, lemma_eval_range, lemma_eval_wf, lemma_extends_value, mul8,
    BlockId, InputId, Node, Offset,
};
use crate::cfg::{cfg_below, lemma_cfg_below_mono, Cfg, Sequence};
use crate::properties::{add_assign, reads};

verus! {

/// Computes the multiplicative inverse of a number (mod 256), which exists
/// exactly for the odd numbers.
pub fn mod_inverse(value: u8) -> (inverse: Option<u8>)
    ensures
        match inverse {
            Some(x) => value % 2 == 1 && mul8(value as int, x as int) == 1,
            None => value % 2 == 0,
        },
{
    if value % 2 == 1 {
        // Each Newton step x * (2 - v * x) doubles the number of low bits in
        // which v * x agrees with 1; v itself is right in three.
        let v = value as u32;
        assert(v * v <= 65025) by (nonlinear_arith)
            requires
                v <= 255,
        ;
        let t1: u32 = (v * v) % 256;
        assert(v * (2 + 255 * t1) <= 255 * 65027) by (nonlinear_arith)
            requires
                v <= 255,
                t1 <= 255,
        ;
        let x1: u32 = (v * (2 + 255 * t1)) % 256;
        assert(v * x1 <= 65025) by (nonlinear_arith)
            requires
                v <= 255,
                x1 <= 255,
        ;
        let t2: u32 = (v * x1) % 256;
        assert(x1 * (2 + 255 * t2) <= 255 * 65027) by (nonlinear_arith)
            requires
                x1 <= 255,
                t2 <= 255,
        ;
        let x2: u32 = (x1 * (2 + 255 * t2)) % 256;
        assert(((v * x2) % 256) as u32 == 1u32) by (bit_vector)
            requires
                v < 256u32,
                (v % 2) as u32 == 1u32,
                t1 == ((v * v) % 256) as u32,
                x1 == ((v * (2 + 255 * t1)) % 256) as u32,
                t2 == ((v * x1) % 256) as u32,
                x2 == ((x1 * (2 + 255 * t2)) % 256) as u32,
        ;
        Some(x2 as u8)
    } else {
        None
    }
}

/// The inverse is unique: no two numbers multiply `value` to 1 (mod 256).
pub proof fn lemma_mod_inverse_unique(value: u8, x: u8, y: u8)
    requires
        mul8(value as int, x as int) == 1,
        mul8(value as int, y as int) == 1,
    ensures
        x == y,
{
    let v = value as u32;
    let a = x as u32;
    let b = y as u32;
    assert(((v * a) % 256) as u32 == 1u32 && ((v * b) % 256) as u32 == 1u32 && a < 256u32 && b < 256u32
        && v < 256u32 ==> a == b) by (bit_vector);
}


/// Every odd number has an inverse (mod 256).
proof fn lemma_odd_inverse_exists(value: u8)
    requires
        value % 2 == 1,
    ensures
        exists|x: u8| mul8(value as int, x as int) == 1,
{
    let v = value as u32;
    assert(v * v <= 65025) by (nonlinear_arith)
        requires
            v <= 255,
    ;
    let t1: u32 = ((v * v) % 256) as u32;
    assert(v * (2 + 255 * t1) <= 255 * 65027) by (nonlinear_arith)
        requires
            v <= 255,
            t1 <= 255,
    ;
    let x1: u32 = ((v * (2 + 255 * t1)) % 256) as u32;
    assert(v * x1 <= 65025) by (nonlinear_arith)
        requires
            v <= 255,
            x1 <= 255,
    ;
    let t2: u32 = ((v * x1) % 256) as u32;
    assert(x1 * (2 + 255 * t2) <= 255 * 65027) by (nonlinear_arith)
        requires
            x1 <= 255,
            t2 <= 255,
    ;
    let x2: u32 = ((x1 * (2 + 255 * t2)) % 256) as u32;
    assert(((v * x2) % 256) as u32 == 1u32) by (bit_vector)
        requires
            v < 256u32,
            (v % 2) as u32 == 1u32,
            t1 == ((v * v) % 256) as u32,
            x1 == ((v * (2 + 255 * t1)) % 256) as u32,
            t2 == ((v * x1) % 256) as u32,
            x2 == ((x1 * (2 + 255 * t2)) % 256) as u32,
    ;
    assert(mul8(value as int, (x2 as u8) as int) == 1);
}

/// The iteration factor counts the iterations of the loop: the body has no
/// net shift and adds a constant `step` to the current cell, the factor
/// times `step` is -1 (mod 256), and adding `step` as many times as the
/// factor times any initial value `c0` of the cell brings the cell to 0.
pub proof fn lemma_iter_factor_counts(b: &Block, nodes: Seq<Node>, c0: u8)
    requires
        iter_factor(b, nodes) is Some,
    ensures
        ({
            let cur = b.cell(0)->0;
            let l = nodes[cur.0 as int]->Add_0;
            let r = nodes[cur.0 as int]->Add_1;
            let step = nodes[r.0 as int]->Const_0;
            let f = iter_factor(b, nodes)->0;
            &&& b.offset.0 == 0
            &&& b.cell(0) is Some
            &&& nodes[cur.0 as int] is Add
            &&& nodes[l.0 as int] == Node::Copy(Offset(0), b.id)
            &&& nodes[r.0 as int] is Const
            &&& mul8(f as int, step as int) == 255
            &&& add8(c0 as int, mul8(mul8(f as int, c0 as int), step as int)) == 0
        }),
{
    let cur = b.cell(0)->0;
    let r = nodes[cur.0 as int]->Add_1;
    let step = nodes[r.0 as int]->Const_0;
    let neg = (256 - step) % 256;
    lemma_odd_inverse_exists(neg as u8);
    let f = iter_factor(b, nodes)->0;
    assert(mul8(neg, f as int) == 1);
    let a = step as u32;
    let x = f as u32;
    let c = c0 as u32;
    let n32 = neg as u32;
    assert(((n32 + a) % 256) as u32 == 0u32);
    assert(((n32 * x) % 256) as u32 == 1u32);
    assert(((x * a) % 256) as u32 == 255u32) by (bit_vector)
        requires
            a < 256u32,
            x < 256u32,
            n32 < 256u32,
            ((n32 + a) % 256) as u32 == 0u32,
            ((n32 * x) % 256) as u32 == 1u32,
    ;
    let m = ((x * c) % 256) as u32;
    let k = ((m * a) % 256) as u32;
    assert(((c + k) % 256) as u32 == 0u32) by (bit_vector)
        requires
            a < 256u32,
            x < 256u32,
            c < 256u32,
            ((x * a) % 256) as u32 == 255u32,
            m == ((x * c) % 256) as u32,
            k == ((m * a) % 256) as u32,
    ;
}

/// A body with no net shift whose current cell is its copy plus an odd
/// constant has an iteration factor.
pub proof fn lemma_iter_factor_exists(b: &Block, nodes: Seq<Node>)
    requires
        b.offset.0 == 0,
        ({
            &&& b.cell(0) matches Some(cur)
            &&& cur.0 < nodes.len()
            &&& nodes[cur.0 as int] matches Node::Add(l, r)
            &&& l.0 < nodes.len()
            &&& r.0 < nodes.len()
            &&& nodes[l.0 as int] == Node::Copy(Offset(0), b.id)
            &&& nodes[r.0 as int] matches Node::Const(k)
            &&& k % 2 == 1
        }),
    ensures
        iter_factor(b, nodes) is Some,
{
    let cur = b.cell(0)->0;
    let r = nodes[cur.0 as int]->Add_1;
    let k = nodes[r.0 as int]->Const_0;
    assert((256 - k) % 256 == 256 - k);
}

/// The number of iterations a loop with this body makes, divided by the
/// initial value of the current cell: when the body has no net shift and adds
/// a constant `a` to the current cell, the inverse of `-a` (mod 256), which
/// exists when `a` is odd.
pub open spec fn iter_factor(b: &Block, nodes: Seq<Node>) -> Option<u8> {
    if b.offset.0 == 0 && b.cell(0) is Some {
        let cur = b.cell(0)->0;
        if cur.0 < nodes.len() && nodes[cur.0 as int] is Add {
            let l = nodes[cur.0 as int]->Add_0;
            let r = nodes[cur.0 as int]->Add_1;
            if l.0 < nodes.len() && r.0 < nodes.len() && nodes[l.0 as int] == Node::Copy(Offset(0), b.id)
                && nodes[r.0 as int] is Const {
                let neg = (256 - nodes[r.0 as int]->Const_0) % 256;
                if neg % 2 == 1 {
                    Some(choose|x: u8| mul8(neg, x as int) == 1)
                } else {
                    None
                }
            } else {
                None
            }
        } else {
            None
        }
    } else {
        None
    }
}

/// Every cell the block assigns, but the current one, is loop-invariant or
/// adds a loop-invariant value to itself.
pub open spec fn all_add_assign(b: &Block, nodes: Seq<Node>) -> bool {
    forall|k: int|
        0 <= k < b.memory@.len() && k + b.min_offset.0 != 0 ==> (#[trigger] b.memory@[k] matches Some(x)
            ==> add_assign(nodes, x, Offset((k + b.min_offset.0) as i64), b))
}

/// Whether `it` is the number of iterations as the closed form builds it,
/// in a graph whose nodes `nodes2` extend the nodes `nodes1` of the loop
/// body: the product of the copy of the current cell of block `id` and the
/// constant `factor`, inserted and idealized.
pub open spec fn closed_form_iters(nodes2: Seq<Node>, it: NodeId, nodes1: Seq<Node>, id: BlockId, factor: u8) -> bool {
    exists|na: Seq<Node>, nb: Seq<Node>, c: NodeId, f: NodeId|
        #![trigger ideal_insert(na, Node::Mul(c, f)), prefix(nb, nodes2)]
        {
            &&& prefix(nodes1, na)
            &&& c.0 < na.len() && na[c.0 as int] == Node::Copy(Offset(0), id)
            &&& f.0 < na.len() && na[f.0 as int] == Node::Const(factor)
            &&& ideal_insert(na, Node::Mul(c, f)) == (nb, it)
            &&& prefix(nb, nodes2)
        }
}

/// Whether `y` is the closed form that the closed form builds of a cell that
/// adds `rhs` to `lhs` each iteration, with `it` the number of iterations:
/// the product of `rhs` and `it`, inserted and idealized, then the sum of
/// `lhs` and that product, inserted and idealized.
pub open spec fn closed_form_cell(
    nodes2: Seq<Node>,
    y: NodeId,
    nodes1: Seq<Node>,
    lhs: NodeId,
    rhs: NodeId,
    it: NodeId,
) -> bool {
    exists|na: Seq<Node>, nb: Seq<Node>, nc: Seq<Node>, m: NodeId|
        #![trigger ideal_insert(na, Node::Mul(rhs, it)), ideal_insert(nb, Node::Add(lhs, m)), prefix(nc, nodes2)]
        {
            &&& prefix(nodes1, na)
            &&& it.0 < na.len()
            &&& ideal_insert(na, Node::Mul(rhs, it)) == (nb, m)
            &&& ideal_insert(nb, Node::Add(lhs, m)) == (nc, y)
            &&& prefix(nc, nodes2)
        }
}

/// Whether each cell of `b1` but the current one that adds a value to
/// itself is, in `b2`, the closed form that `closed_form_cell` says, with
/// `it` the number of iterations.
pub open spec fn closed_form_cells(b2: &Block, b1: &Block, nodes2: Seq<Node>, nodes1: Seq<Node>, it: NodeId) -> bool {
    forall|k: int|
        0 <= k < b1.memory@.len() && k + b1.min_offset.0 != 0 ==> match #[trigger] b1.memory@[k] {
            Some(x) => nodes1[x.0 as int] is Add ==> (b2.memory@[k] matches Some(y) && closed_form_cell(
                nodes2,
                y,
                nodes1,
                nodes1[x.0 as int]->Add_0,
                nodes1[x.0 as int]->Add_1,
                it,
            )),
            None => true,
        }
}

/// Whether `b2` is `b1` in closed form for `factor` times the current cell
/// iterations: the current cell becomes zero, each cell that adds a value
/// adds it that many times, and the rest stays. Each cell that adds a value
/// is built as `closed_form_cell` says, over the number of iterations that
/// `closed_form_iters` builds.
pub open spec fn closed_form_of(
    b2: &Block,
    b1: &Block,
    factor: u8,
    nodes2: Seq<Node>,
    nodes1: Seq<Node>,
) -> bool {
    &&& b2.id == b1.id
    &&& b2.effects == b1.effects
    &&& b2.offset == b1.offset
    &&& b2.min_offset == b1.min_offset
    &&& b2.guarded_left == b1.guarded_left
    &&& b2.guarded_right == b1.guarded_right
    &&& b2.memory@.len() == b1.memory@.len()
    &&& forall|k: int|
        0 <= k < b1.memory@.len() ==> match #[trigger] b1.memory@[k] {
            None => b2.memory@[k] is None,
            Some(x) => b2.memory@[k] matches Some(y) && y.0 < nodes2.len() && if k + b1.min_offset.0
                == 0 {
                nodes2[y.0 as int] == Node::Const(0) && forall|copy: spec_fn(Offset, BlockId) -> u8, input: spec_fn(InputId) -> u8|
                    #[trigger] eval(nodes2, y, copy, input) == 0
            } else if nodes1[x.0 as int] is Add {
                forall|copy: spec_fn(Offset, BlockId) -> u8, input: spec_fn(InputId) -> u8|
                    #[trigger] eval(nodes2, y, copy, input) == add8(
                        eval(nodes1, nodes1[x.0 as int]->Add_0, copy, input),
                        mul8(
                            eval(nodes1, nodes1[x.0 as int]->Add_1, copy, input),
                            mul8(copy(Offset(0), b1.id) as int, factor as int),
                        ),
                    )
            } else {
                y == x
            },
        }
    &&& exists|it: NodeId|
        #[trigger] closed_form_iters(nodes2, it, nodes1, b1.id, factor) && closed_form_cells(b2, b1, nodes2, nodes1, it)
}

/// The closed-form number of iterations stays one when the graph grows.
proof fn lemma_closed_form_iters_extend(n2: Seq<Node>, n3: Seq<Node>, it: NodeId, nodes1: Seq<Node>, id: BlockId, factor: u8)
    requires
        closed_form_iters(n2, it, nodes1, id, factor),
        prefix(n2, n3),
    ensures
        closed_form_iters(n3, it, nodes1, id, factor),
{
    let (na, nb, c, f) = choose|na: Seq<Node>, nb: Seq<Node>, c: NodeId, f: NodeId|
        #![trigger ideal_insert(na, Node::Mul(c, f)), prefix(nb, n2)]
        {
            &&& prefix(nodes1, na)
            &&& c.0 < na.len() && na[c.0 as int] == Node::Copy(Offset(0), id)
            &&& f.0 < na.len() && na[f.0 as int] == Node::Const(factor)
            &&& ideal_insert(na, Node::Mul(c, f)) == (nb, it)
            &&& prefix(nb, n2)
        };
    assert(n3.take(nb.len() as int) =~= n2.take(nb.len() as int));
    assert(prefix(nb, n3));
}

/// A closed-form cell stays one when the graph grows.
proof fn lemma_closed_form_cell_extend(
    n2: Seq<Node>,
    n3: Seq<Node>,
    y: NodeId,
    nodes1: Seq<Node>,
    lhs: NodeId,
    rhs: NodeId,
    it: NodeId,
)
    requires
        closed_form_cell(n2, y, nodes1, lhs, rhs, it),
        prefix(n2, n3),
    ensures
        closed_form_cell(n3, y, nodes1, lhs, rhs, it),
{
    let (na, nb, nc, m) = choose|na: Seq<Node>, nb: Seq<Node>, nc: Seq<Node>, m: NodeId|
        #![trigger ideal_insert(na, Node::Mul(rhs, it)), ideal_insert(nb, Node::Add(lhs, m)), prefix(nc, n2)]
        {
            &&& prefix(nodes1, na)
            &&& it.0 < na.len()
            &&& ideal_insert(na, Node::Mul(rhs, it)) == (nb, m)
            &&& ideal_insert(nb, Node::Add(lhs, m)) == (nc, y)
            &&& prefix(nc, n2)
        };
    assert(n3.take(nc.len() as int) =~= n2.take(nc.len() as int));
    assert(prefix(nc, n3));
}

impl Block {
    /// Calculates the factor of the number of iterations this block would
    /// execute as the body of a loop. The number of iterations is the factor
    /// multiplied by the current cell. This can be calculated when the block
    /// has no net shift and an odd constant is added to the current cell.
    pub fn closed_form_iter_factor(&self, g: &Graph) -> (factor: Option<u8>)
        ensures
            factor == iter_factor(self, g@),
    {
        if self.offset.0 == 0 {
            if let Some(current) = self.get_cell(Offset(0)) {
                if current.0 < g.len() {
                    if let Node::Add(lhs, rhs) = *g.index(current) {
                        if lhs.0 < g.len() && rhs.0 < g.len() && *g.index(lhs) == Node::Copy(Offset(0), self.id) {
                            if let Node::Const(addend) = *g.index(rhs) {
                                let neg: u8 = if addend == 0 { 0 } else { 255 - addend + 1 };
                                let r = mod_inverse(neg);
                                proof {
                                    assert(neg == (256 - addend) % 256);
                                    if let Some(x) = r {
                                        let y = choose|y: u8| mul8(neg as int, y as int) == 1;
                                        lemma_mod_inverse_unique(neg, x, y);
                                    }
                                }
                                return r;
                            }
                        }
                    }
                }
            }
        }
        None
    }
}


impl Block {
    /// Converts a loop body, which has no net shift and adds an odd constant to
    /// the current cell, to its closed form. The block should be in a loop.
    /// It is left as it is, and `false` returned, when a cell it assigns is
    /// not an add-assign.
    #[verifier::rlimit(40)]
    pub(crate) fn opt_closed_form_add(&mut self, factor: u8, g: &mut Graph) -> (r: bool)
        requires
            old(g).wf(),
            old(self).nodes_below(old(g)@.len()),
            old(self).fits(),
        ensures
            final(g).wf(),
            final(g).extends(old(g)),
            final(g).spec_next_block() == old(g).spec_next_block(),
            final(g).spec_next_input() == old(g).spec_next_input(),
            final(self).nodes_below(final(g)@.len()),
            final(self).fits(),
            r == all_add_assign(old(self), old(g)@),
            r ==> closed_form_of(final(self), old(self), factor, final(g)@, old(g)@),
            !r ==> *final(self) == *old(self) && *final(g) == *old(g),
    {
        let ghost g0 = *g;
        let ghost b0 = *self;
        proof {
            g.lemma_extends_refl();
        }
        let mut k: usize = 0;
        while k < self.memory.len()
            invariant
                *g == g0,
                g0 == *old(g),
                *self == b0,
                b0 == *old(self),
                g.extends(old(g)),
                g.wf(),
                self.nodes_below(g@.len()),
                self.fits(),
                k <= self.memory@.len(),
                forall|j: int|
                    0 <= j < k && j + self.min_offset.0 != 0 ==> (#[trigger] self.memory@[j] matches Some(x)
                        ==> add_assign(g@, x, Offset((j + self.min_offset.0) as i64), self)),
            decreases self.memory@.len() - k,
        {
            if let Some(cell) = self.memory[k] {
                let off: i128 = self.min_offset.0 as i128 + k as i128;
                if off != 0 {
                    proof {
                        assert(self.memory@[k as int] matches Some(x) && x.0 < g@.len());
                    }
                    if !g.get(cell).is_add_assign(Offset(off as i64), self) {
                        return false;
                    }
                }
            }
            k = k + 1;
        }
        let block_id = self.id;
        proof {
            g.lemma_extends_refl();
        }
        let c0 = Node::Copy(Offset(0), block_id).insert_ideal(g);
        let ghost g1 = *g;
        let f = Node::Const(factor).insert_ideal(g);
        let ghost g2 = *g;
        proof {
            Graph::lemma_extends_trans(&g0, &g1, &g2);
            g2.lemma_extends(&g1);
            assert(c0.0 < g2@.len());
        }
        let iters = Node::Mul(c0, f).insert(g);
        let ghost g3 = *g;
        proof {
            Graph::lemma_extends_trans(&g0, &g2, &g3);
            g3.lemma_extends(&g0);
            g3.lemma_extends_refl();
            assert forall|copy: spec_fn(Offset, BlockId) -> u8, input: spec_fn(InputId) -> u8|
                #[trigger] eval(g3@, iters, copy, input) == mul8(copy(Offset(0), block_id) as int, factor as int) by {
                lemma_eval_extend(g1@, g2@, c0, copy, input);
            }
            g2.lemma_extends(&g0);
            assert(g2@[c0.0 as int] == g1@[c0.0 as int]) by {
                assert(g2@.take(g1@.len() as int)[c0.0 as int] == g1@[c0.0 as int]);
            }
            assert(prefix(g0@, g2@));
            assert(g3@.take(g3@.len() as int) =~= g3@);
            assert(prefix(g3@, g3@));
            assert(ideal_insert(g2@, Node::Mul(c0, f)) == (g3@, iters));
            assert(closed_form_iters(g3@, iters, g0@, block_id, factor));
        }
        let mut k: usize = 0;
        while k < self.memory.len()
            invariant
                g0.wf(),
                g.wf(),
                g.extends(&g0),
                g.spec_next_block() == g0.spec_next_block(),
                g.spec_next_input() == g0.spec_next_input(),
                g3.extends(&g0),
                g.extends(&g3),
                iters.0 < g3@.len(),
                forall|copy: spec_fn(Offset, BlockId) -> u8, input: spec_fn(InputId) -> u8|
                    #[trigger] eval(g3@, iters, copy, input) == mul8(copy(Offset(0), b0.id) as int, factor as int),
                b0.nodes_below(g0@.len()),
                b0.fits(),
                self.id == b0.id,
                self.effects == b0.effects,
                self.offset == b0.offset,
                self.min_offset == b0.min_offset,
                self.guarded_left == b0.guarded_left,
                self.guarded_right == b0.guarded_right,
                self.memory@.len() == b0.memory@.len(),
                k <= self.memory@.len(),
                forall|j: int| k <= j < self.memory@.len() ==> self.memory@[j] == b0.memory@[j],
                memory_below(self.memory@, g@.len()),
                closed_form_iters(g3@, iters, g0@, b0.id, factor),
                forall|j: int|
                    0 <= j < k && j + b0.min_offset.0 != 0 ==> match #[trigger] b0.memory@[j] {
                        Some(x) => g0@[x.0 as int] is Add ==> (self.memory@[j] matches Some(y) && closed_form_cell(
                            g@,
                            y,
                            g0@,
                            g0@[x.0 as int]->Add_0,
                            g0@[x.0 as int]->Add_1,
                            iters,
                        )),
                        None => true,
                    },
                forall|j: int|
                    0 <= j < k ==> match #[trigger] b0.memory@[j] {
                        None => self.memory@[j] is None,
                        Some(x) => self.memory@[j] matches Some(y) && y.0 < g@.len() && if j + b0.min_offset.0 == 0 {
                            g@[y.0 as int] == Node::Const(0) && forall|copy: spec_fn(Offset, BlockId) -> u8, input: spec_fn(InputId) -> u8|
                                #[trigger] eval(g@, y, copy, input) == 0
                        } else if g0@[x.0 as int] is Add {
                            forall|copy: spec_fn(Offset, BlockId) -> u8, input: spec_fn(InputId) -> u8|
                                #[trigger] eval(g@, y, copy, input) == add8(
                                    eval(g0@, g0@[x.0 as int]->Add_0, copy, input),
                                    mul8(
                                        eval(g0@, g0@[x.0 as int]->Add_1, copy, input),
                                        mul8(copy(Offset(0), b0.id) as int, factor as int),
                                    ),
                                )
                        } else {
                            y == x
                        },
                    },
            decreases self.memory@.len() - k,
        {
            let ghost gk = *g;
            let ghost mk = self.memory@;
            proof {
                g.lemma_extends_refl();
                g.lemma_extends(&g0);
                g0.lemma_wf_nodes();
            }
            if let Some(cell) = self.memory[k] {
                let off: i128 = self.min_offset.0 as i128 + k as i128;
                proof {
                    assert(b0.memory@[k as int] == Some(cell));
                    assert(memory_below(b0.memory@, g0@.len()));
                    assert(cell.0 < g0@.len());
                }
                if off == 0 {
                    let z = Node::Const(0).insert_ideal(g);
                    self.memory.set(k, Some(z));
                } else {
                    let node = *g.index(cell);
                    match node {
                        Node::Add(lhs, rhs) => {
                            proof {
                                assert(g@[cell.0 as int] == g0@[cell.0 as int]);
                                assert(crate::egraph::children_below(g0@[cell.0 as int], cell.0 as int));
                                g.lemma_extends(&g3);
                            }
                            let m = Node::Mul(rhs, iters).insert(g);
                            let ghost gm = *g;
                            proof {
                                gm.lemma_extends(&gk);
                                Graph::lemma_extends_trans(&g3, &gk, &gm);
                                Graph::lemma_extends_trans(&g0, &gk, &gm);
                                gm.lemma_extends(&g0);
                            }
                            let y = Node::Add(lhs, m).insert(g);
                            proof {
                                Graph::lemma_extends_trans(&gk, &gm, g);
                                g3.lemma_extends(&g0);
                                gk.lemma_extends(&g3);
                                assert(prefix(g0@, gk@)) by {
                                    assert(gk@.take(g0@.len() as int) =~= g3@.take(g0@.len() as int));
                                }
                                assert(g@.take(g@.len() as int) =~= g@);
                                assert(prefix(g@, g@));
                                assert(iters.0 < gk@.len());
                                assert(ideal_insert(gk@, Node::Mul(rhs, iters)) == (gm@, m));
                                assert(ideal_insert(gm@, Node::Add(lhs, m)) == (g@, y));
                                assert(closed_form_cell(g@, y, g0@, lhs, rhs, iters));
                                assert forall|copy: spec_fn(Offset, BlockId) -> u8, input: spec_fn(InputId) -> u8|
                                    #[trigger] eval(g@, y, copy, input) == add8(
                                        eval(g0@, lhs, copy, input),
                                        mul8(
                                            eval(g0@, rhs, copy, input),
                                            mul8(copy(Offset(0), b0.id) as int, factor as int),
                                        ),
                                    ) by {
                                    lemma_eval_extend(g0@, gm@, lhs, copy, input);
                                    lemma_eval_extend(g0@, gk@, rhs, copy, input);
                                    lemma_eval_extend(g3@, gk@, iters, copy, input);
                                }
                            }
                            self.memory.set(k, Some(y));
                        },
                        _ => {},
                    }
                }
            }
            proof {
                Graph::lemma_extends_trans(&g0, &gk, g);
                Graph::lemma_extends_trans(&g3, &gk, g);
                g.lemma_extends(&gk);
                assert(prefix(gk@, g@));
                assert forall|j: int|
                    0 <= j < k + 1 && j + b0.min_offset.0 != 0 implies match #[trigger] b0.memory@[j] {
                        Some(x) => g0@[x.0 as int] is Add ==> (self.memory@[j] matches Some(y) && closed_form_cell(
                            g@,
                            y,
                            g0@,
                            g0@[x.0 as int]->Add_0,
                            g0@[x.0 as int]->Add_1,
                            iters,
                        )),
                        None => true,
                    } by {
                    if j < k {
                        if let Some(x) = b0.memory@[j] {
                            if g0@[x.0 as int] is Add {
                                assert(self.memory@[j] == mk[j]);
                                let y = mk[j]->0;
                                lemma_closed_form_cell_extend(gk@, g@, y, g0@, g0@[x.0 as int]->Add_0, g0@[x.0 as int]->Add_1, iters);
                            }
                        }
                    }
                }
                assert forall|j: int| 0 <= j < self.memory@.len() implies (#[trigger] self.memory@[j] matches Some(id) ==> id.0 < g@.len()) by {
                    if j != k {
                        assert(self.memory@[j] == mk[j]);
                    }
                }
                assert forall|j: int|
                    0 <= j < k + 1 implies match #[trigger] b0.memory@[j] {
                        None => self.memory@[j] is None,
                        Some(x) => self.memory@[j] matches Some(y) && y.0 < g@.len() && if j + b0.min_offset.0 == 0 {
                            g@[y.0 as int] == Node::Const(0) && forall|copy: spec_fn(Offset, BlockId) -> u8, input: spec_fn(InputId) -> u8|
                                #[trigger] eval(g@, y, copy, input) == 0
                        } else if g0@[x.0 as int] is Add {
                            forall|copy: spec_fn(Offset, BlockId) -> u8, input: spec_fn(InputId) -> u8|
                                #[trigger] eval(g@, y, copy, input) == add8(
                                    eval(g0@, g0@[x.0 as int]->Add_0, copy, input),
                                    mul8(
                                        eval(g0@, g0@[x.0 as int]->Add_1, copy, input),
                                        mul8(copy(Offset(0), b0.id) as int, factor as int),
                                    ),
                                )
                        } else {
                            y == x
                        },
                    } by {
                    if j < k {
                        if let (Some(x), Some(y)) = (b0.memory@[j], self.memory@[j]) {
                            assert(self.memory@[j] == mk[j]);
                            g.lemma_extends(&gk);
                            assert(g@[y.0 as int] == gk@[y.0 as int]);
                            assert forall|copy: spec_fn(Offset, BlockId) -> u8, input: spec_fn(InputId) -> u8|
                                #[trigger] eval(g@, y, copy, input) == eval(gk@, y, copy, input) by {
                                lemma_eval_extend(gk@, g@, y, copy, input);
                            }
                        }
                    }
                }
            }
            k = k + 1;
        }
        proof {
            assert(all_add_assign(&b0, g0@));
            g.lemma_extends(&g0);
            lemma_nodes_below_mono(&b0, g0@.len(), g@.len());
            g.lemma_extends(&g3);
            assert(prefix(g3@, g@));
            lemma_closed_form_iters_extend(g3@, g@, iters, g0@, b0.id, factor);
            assert(closed_form_cells(self, &b0, g@, g0@, iters));
        }
        true
    }
}


/// Whether `a` is a prefix of `b`.
pub open spec fn prefix(a: Seq<Node>, b: Seq<Node>) -> bool {
    a.len() <= b.len() && b.take(a.len() as int) == a
}

/// Whether `c2` is what a loop with body `body` becomes: when the body is a
/// block with an iteration factor, no I/O and only add-assigns, in a graph
/// `nt` of its time, its closed form (guarded by an `If` when it has guards);
/// else the loop itself.
pub open spec fn loop_closed_form(c2: Cfg, body: Cfg, nodes: Seq<Node>) -> bool {
    exists|nt: Seq<Node>, n2: Seq<Node>|
        #![trigger prefix(nt, n2), prefix(n2, nodes)]
        prefix(nt, n2) && prefix(n2, nodes) && cfg_below(body, nt.len()) && if body is Block && iter_factor(
            &body->Block_0,
            nt,
        ) is Some && body->Block_0.purity() is Some && all_add_assign(&body->Block_0, nt) {
            let blk = body->Block_0;
            exists|blk2: Block|
                #![trigger closed_form_of(&blk2, &blk, iter_factor(&blk, nt)->0, n2, nt)]
                closed_form_of(&blk2, &blk, iter_factor(&blk, nt)->0, n2, nt) && blk2.nodes_below(n2.len())
                    && blk2.fits() && c2 == if blk.purity()->0 {
                    Cfg::If(Box::new(Cfg::Block(blk2)))
                } else {
                    Cfg::Block(blk2)
                }
        } else {
            c2 == Cfg::Loop(Box::new(body))
        }
}

/// A loop is replaced by its closed form only when its body prints and reads
/// nothing: the closed form runs once, so it could not repeat the loop's
/// I/O on each iteration.
pub proof fn lemma_closed_form_no_io(c2: Cfg, body: Cfg, nodes: Seq<Node>)
    requires
        loop_closed_form(c2, body, nodes),
        c2 != Cfg::Loop(Box::new(body)),
    ensures
        body is Block,
        io_events(body->Block_0.effects@) == Seq::<IoEvent>::empty(),
{
    let (nt, n2) = choose|nt: Seq<Node>, n2: Seq<Node>|
        #![trigger prefix(nt, n2), prefix(n2, nodes)]
        prefix(nt, n2) && prefix(n2, nodes) && cfg_below(body, nt.len()) && if body is Block && iter_factor(
            &body->Block_0,
            nt,
        ) is Some && body->Block_0.purity() is Some && all_add_assign(&body->Block_0, nt) {
            let blk = body->Block_0;
            exists|blk2: Block|
                #![trigger closed_form_of(&blk2, &blk, iter_factor(&blk, nt)->0, n2, nt)]
                closed_form_of(&blk2, &blk, iter_factor(&blk, nt)->0, n2, nt) && blk2.nodes_below(n2.len())
                    && blk2.fits() && c2 == if blk.purity()->0 {
                    Cfg::If(Box::new(Cfg::Block(blk2)))
                } else {
                    Cfg::Block(blk2)
                }
        } else {
            c2 == Cfg::Loop(Box::new(body))
        };
    lemma_pure_block_no_io(&body->Block_0);
}

/// Whether `c2` is `c1` with every loop converted as `loop_closed_form`
/// says, innermost first.
pub open spec fn closed_form_pass(c2: Cfg, c1: Cfg, nodes: Seq<Node>) -> bool
    decreases c1,
{
    match c1 {
        Cfg::Block(_) => c2 == c1,
        Cfg::Sequence(s) => c2 is Sequence && c2->Sequence_0.cfgs@.len() == s.cfgs@.len() && forall|k: int|
            0 <= k < s.cfgs@.len() ==> closed_form_pass(c2->Sequence_0.cfgs@[k], #[trigger] s.cfgs@[k], nodes),
        Cfg::Loop(body) => exists|b2: Cfg|
            #![trigger loop_closed_form(c2, b2, nodes)]
            closed_form_pass(b2, *body, nodes) && loop_closed_form(c2, b2, nodes),
        Cfg::If(body) => c2 is If && closed_form_pass(*c2->If_0, *body, nodes),
    }
}

/// The pass relation stays when the graph grows.
pub proof fn lemma_closed_form_pass_extend(c2: Cfg, c1: Cfg, n1: Seq<Node>, n2: Seq<Node>)
    requires
        closed_form_pass(c2, c1, n1),
        prefix(n1, n2),
    ensures
        closed_form_pass(c2, c1, n2),
    decreases c1,
{
    match c1 {
        Cfg::Block(_) => {},
        Cfg::Sequence(s) => {
            assert forall|k: int| 0 <= k < s.cfgs@.len() implies closed_form_pass(
                c2->Sequence_0.cfgs@[k],
                #[trigger] s.cfgs@[k],
                n2,
            ) by {
                lemma_closed_form_pass_extend(c2->Sequence_0.cfgs@[k], s.cfgs@[k], n1, n2);
            }
        },
        Cfg::Loop(body) => {
            let b2 = choose|b2: Cfg| #![trigger loop_closed_form(c2, b2, n1)]
                closed_form_pass(b2, *body, n1) && loop_closed_form(c2, b2, n1);
            lemma_closed_form_pass_extend(b2, *body, n1, n2);
            let (nt, nm) = choose|nt: Seq<Node>, nm: Seq<Node>|
                #![trigger prefix(nt, nm), prefix(nm, n1)]
                prefix(nt, nm) && prefix(nm, n1) && cfg_below(b2, nt.len()) && if b2 is Block && iter_factor(
                    &b2->Block_0,
                    nt,
                ) is Some && b2->Block_0.purity() is Some && all_add_assign(&b2->Block_0, nt) {
                    let blk = b2->Block_0;
                    exists|blk2: Block|
                        #![trigger closed_form_of(&blk2, &blk, iter_factor(&blk, nt)->0, nm, nt)]
                        closed_form_of(&blk2, &blk, iter_factor(&blk, nt)->0, nm, nt) && blk2.nodes_below(nm.len())
                            && blk2.fits() && c2 == if blk.purity()->0 {
                            Cfg::If(Box::new(Cfg::Block(blk2)))
                        } else {
                            Cfg::Block(blk2)
                        }
                } else {
                    c2 == Cfg::Loop(Box::new(b2))
                };
            assert(n2.take(nm.len() as int) =~= n1.take(nm.len() as int));
            assert(prefix(nm, n2));
            assert(loop_closed_form(c2, b2, n2));
        },
        Cfg::If(body) => {
            lemma_closed_form_pass_extend(*c2->If_0, *body, n1, n2);
        },
    }
}

impl Cfg {
    /// Converts loops, which have no net shift and add an odd constant to the
    /// current cell, to their closed form.
    pub fn opt_closed_form_add(&mut self, g: &mut Graph)
        requires
            old(g).wf(),
            cfg_below(*old(self), old(g)@.len()),
        ensures
            final(g).wf(),
            final(g).extends(old(g)),
            final(g).spec_next_block() == old(g).spec_next_block(),
            final(g).spec_next_input() == old(g).spec_next_input(),
            cfg_below(*final(self), final(g)@.len()),
            closed_form_pass(*final(self), *old(self), final(g)@),
        decreases *old(self),
    {
        let ghost c0 = *self;
        let ghost g0 = *g;
        let mut cur = Cfg::empty();
        std::mem::swap(&mut cur, self);
        proof {
            g.lemma_extends_refl();
        }
        match cur {
            Cfg::Block(b) => {
                *self = Cfg::Block(b);
            },
            Cfg::Sequence(seq) => {
                let ghost items = seq.cfgs@;
                proof {
                    assert forall|j: int| 0 <= j < items.len() implies cfg_below(#[trigger] items[j], g0@.len()) by {
                        assert(cfg_below(seq.spec_cfgs()[j], g0@.len()));
                    }
                }
                let mut rest = seq.cfgs;
                let mut out: Vec<Cfg> = Vec::new();
                let n = rest.len();
                let mut k: usize = 0;
                while k < n
                    invariant
                        g0 == *old(g),
                        c0 == *old(self),
                        c0 == Cfg::Sequence(seq),
                        items == seq.cfgs@,
                        n == items.len(),
                        k <= n,
                        rest@.len() == n,
                        forall|j: int| k <= j < n ==> rest@[j] == items[j],
                        out@.len() == k,
                        g0.wf(),
                        g.wf(),
                        g.extends(&g0),
                        g.spec_next_block() == g0.spec_next_block(),
                        g.spec_next_input() == g0.spec_next_input(),
                        forall|j: int| 0 <= j < n ==> cfg_below(#[trigger] items[j], g0@.len()),
                        forall|j: int| 0 <= j < k ==> cfg_below(#[trigger] out@[j], g@.len()),
                        forall|j: int| 0 <= j < k ==> closed_form_pass(#[trigger] out@[j], items[j], g@),
                    decreases n - k,
                {
                    let ghost gk = *g;
                    let mut item = Cfg::empty();
                    std::mem::swap(&mut item, &mut rest[k]);
                    proof {
                        assert(item == items[k as int]);
                        assert(decreases_to!(c0 => c0->Sequence_0));
                        assert(c0->Sequence_0 == seq);
                        assert(decreases_to!(seq => seq.cfgs));
                        assert(decreases_to!(seq.cfgs => seq.cfgs@));
                        assert(decreases_to!(seq.cfgs@ => seq.cfgs@[k as int]));
                        assert(decreases_to!(c0 => item));
                        g.lemma_extends(&g0);
                        assert(cfg_below(items[k as int], g0@.len()));
                        lemma_cfg_below_mono(item, g0@.len(), g@.len());
                    }
                    item.opt_closed_form_add(g);
                    proof {
                        Graph::lemma_extends_trans(&g0, &gk, g);
                        g.lemma_extends(&gk);
                        assert forall|j: int| 0 <= j < k implies cfg_below(#[trigger] out@[j], g@.len()) && closed_form_pass(out@[j], items[j], g@) by {
                            lemma_cfg_below_mono(out@[j], gk@.len(), g@.len());
                            lemma_closed_form_pass_extend(out@[j], items[j], gk@, g@);
                        }
                    }
                    out.push(item);
                    k = k + 1;
                }
                *self = Cfg::Sequence(Sequence { cfgs: out });
            },
            Cfg::Loop(body) => {
                let mut b = *body;
                b.opt_closed_form_add(g);
                let ghost g1 = *g;
                let ghost b2 = b;
                proof {
                    g1.lemma_extends_refl();
                    g1.lemma_extends(&g0);
                }
                match b {
                    Cfg::Block(mut blk) => {
                        if let Some(factor) = blk.closed_form_iter_factor(g) {
                            if let Some(has_guards) = blk.is_pure() {
                                let ghost blk1 = blk;
                                if blk.opt_closed_form_add(factor, g) {
                                    if has_guards {
                                        *self = Cfg::If(Box::new(Cfg::Block(blk)));
                                    } else {
                                        *self = Cfg::Block(blk);
                                    }
                                    proof {
                                        assert(cfg_below(Cfg::Block(blk), g@.len()));
                                        g.lemma_extends(&g1);
                                        Graph::lemma_extends_trans(&g0, &g1, g);
                                        lemma_closed_form_pass_extend(b2, *body, g1@, g@);
                                        assert(prefix(g1@, g@));
                                        assert(prefix(g@, g@)) by {
                                            assert(g@.take(g@.len() as int) =~= g@);
                                        }
                                        assert(closed_form_of(&blk, &blk1, iter_factor(&blk1, g1@)->0, g@, g1@));
                                        assert(loop_closed_form(*self, b2, g@));
                                    }
                                    return;
                                }
                            }
                        }
                        *self = Cfg::Loop(Box::new(Cfg::Block(blk)));
                    },
                    other => {
                        *self = Cfg::Loop(Box::new(other));
                    },
                }
                proof {
                    assert(prefix(g@, g@)) by {
                        assert(g@.take(g@.len() as int) =~= g@);
                    }
                    assert(loop_closed_form(*self, b2, g@));
                    assert(closed_form_pass(b2, *body, g@));
                }
            },
            Cfg::If(then) => {
                let mut t = *then;
                t.opt_closed_form_add(g);
                *self = Cfg::If(Box::new(t));
            },
        }
    }
}

} // verus!
