//! Peeling the first iterations of a loop whose stores become
//! loop-invariant, so that the rest of the loop can take its closed form.

use vstd::prelude::*;

use crate::block::{
    block_reads, cloned_block, fresh_inputs, input_keys, inputs_map_wf, lemma_copies_shiftable, lemma_nodes_below_mono, Block,
};
use crate::cfg::{cfg_below, cfgs_below, folded, lemma_cfg_below_mono, lemma_folded_extend, spliced, unwrapped, Cfg, Sequence};
use crate::egraph::{Graph, NodeId};
use crate::node::InputId;
use crate::node::{BlockId, Node};
use crate::optimize::add_assign::{closed_form_pass, lemma_closed_form_pass_extend, prefix};
use crate::optimize::copy_const::const_copied;
use crate::properties::reads;

verus! {

/// The number of cells that `memory` assigns.
pub open spec fn count_assigned(memory: Seq<Option<NodeId>>) -> nat
    decreases memory.len(),
{
    if memory.len() == 0 {
        0
    } else {
        count_assigned(memory.drop_last()) + if memory.last() is Some {
            1nat
        } else {
            0nat
        }
    }
}

/// Whether block `b` stores, in some cell, a value that does not read from
/// it, so that the store would not change after another iteration.
pub open spec fn has_invariant_store(b: &Block, nodes: Seq<Node>) -> bool {
    exists|k: int|
        0 <= k < b.memory@.len() && (#[trigger] b.memory@[k]) is Some && !reads(
            nodes,
            b.memory@[k]->0,
            b,
            b.id,
        )
}

/// Whether a loop with body `body` is peeled: its body is a block with no
/// net shift and an invariant store.
pub open spec fn peelable(body: Cfg, nodes: Seq<Node>) -> bool {
    &&& body is Block
    &&& body->Block_0.offset.0 == 0
    &&& has_invariant_store(&body->Block_0, nodes)
}

/// Whether `b2` is `b1` with each store removed whose value does not read
/// from `peeled` through copies from `b1`.
pub open spec fn stores_removed(b2: &Block, b1: &Block, peeled: &Block, nodes: Seq<Node>) -> bool {
    &&& b2.id == b1.id
    &&& b2.offset == b1.offset
    &&& b2.min_offset == b1.min_offset
    &&& b2.guarded_left == b1.guarded_left
    &&& b2.guarded_right == b1.guarded_right
    &&& b2.effects@ == b1.effects@
    &&& b2.memory@.len() == b1.memory@.len()
    &&& forall|k: int|
        0 <= k < b1.memory@.len() ==> #[trigger] b2.memory@[k] == match b1.memory@[k] {
            Some(x) => if reads(nodes, x, peeled, b1.id) {
                Some(x)
            } else {
                None
            },
            None => None,
        }
}

/// Whether `t` is what one peeled iteration of a loop over block `b` leaves
/// for the rest of the loop, in graphs that the nodes `nodes` extend: a
/// clone of `b` into a fresh block, its invariant stores removed and the
/// constants that `b` leaves propagated into it. Each input that `b` reads
/// is read in the clone from a fresh input node, numbered from `lo` up to
/// below `hi`, a different one for each.
pub open spec fn cloned_tail(t: Block, b: Block, nodes: Seq<Node>, lo: int, hi: int) -> bool {
    exists|n0: Seq<Node>, n1: Seq<Node>, n2: Seq<Node>, t0: Block, t1: Block, map: Map<u32, NodeId>|
        #![trigger cloned_block(&t0, &b, n1, n0, map), const_copied(&t, &t1, &b, n2, n1)]
        {
            &&& prefix(n0, n1)
            &&& prefix(n1, n2)
            &&& prefix(n2, nodes)
            &&& inputs_map_wf(map, n1, input_keys(n0, n0.len() as int))
            &&& (forall|i: InputId| block_reads(&b, n0, i) ==> map.contains_key(i.0))
            &&& fresh_inputs(map, Map::empty(), n1, lo, hi)
            &&& cloned_block(&t0, &b, n1, n0, map)
            &&& stores_removed(&t1, &t0, &b, n1)
            &&& const_copied(&t, &t1, &b, n2, n1)
        }
}

/// A loop over block `t`.
pub open spec fn looped(t: Block) -> Cfg {
    Cfg::Loop(Box::new(Cfg::Block(t)))
}

/// The first iteration `b` of a peeled loop, then the rest of the loop.
pub open spec fn peeled_items(b: Block, tail: Cfg) -> Seq<Cfg> {
    seq![Cfg::Block(b), tail]
}

/// Whether `c2` is a loop over block `b` with its first iteration peeled:
/// `b` followed by the rest of the loop, all under an `If`. The rest is the
/// loop over the tail block of `cloned_tail` in its closed form, itself
/// peeled again while it stays peelable and `fuel` lasts; when `room` is
/// false, a peel may also have been left out. The fresh inputs of the
/// clone are numbered from `lo` up, and those of each later clone above
/// those of the clones before it.
pub open spec fn peeled_loop(c2: Cfg, b: Block, nodes: Seq<Node>, room: bool, fuel: nat, lo: int) -> bool
    decreases fuel,
{
    exists|t: Block, tc: Cfg, tail: Cfg, s: Seq<Cfg>, hi: int|
        #![trigger cloned_tail(t, b, nodes, lo, hi), closed_form_pass(tc, looped(t), nodes), folded(s, peeled_items(b, tail), nodes, true)]
        {
            &&& cloned_tail(t, b, nodes, lo, hi)
            &&& closed_form_pass(tc, looped(t), nodes)
            &&& cfg_below(tc, nodes.len())
            &&& if tc is Loop && peelable(*tc->Loop_0, nodes) && fuel > 1 {
                if room {
                    peeled_loop(tail, tc->Loop_0->Block_0, nodes, room, (fuel - 1) as nat, hi)
                } else {
                    tail == tc || peeled_loop(tail, tc->Loop_0->Block_0, nodes, room, (fuel - 1) as nat, hi)
                }
            } else {
                tail == tc
            }
            &&& folded(s, peeled_items(b, tail), nodes, true)
            &&& c2 matches Cfg::If(body) && unwrapped(*body, s)
        }
}

/// Whether `c2` is `c1` with each peelable loop peeled, as often as its
/// block assigns cells, inner loops first and sequences flattened
/// afterwards. When `room` is false, a peel may have been left out. The
/// fresh inputs of each clone are numbered `lo` or above.
pub open spec fn peel_pass(c2: Cfg, c1: Cfg, nodes: Seq<Node>, room: bool, lo: int) -> bool
    decreases c1,
{
    match c1 {
        Cfg::Block(_) => c2 == c1,
        Cfg::Sequence(s) => exists|p: Seq<Cfg>|
            #![trigger p.len()]
            p.len() == s.cfgs@.len() && (forall|k: int|
                0 <= k < s.cfgs@.len() ==> peel_pass(p[k], #[trigger] s.cfgs@[k], nodes, room, lo))
                && exists|q: Seq<Cfg>| folded(q, spliced(p), nodes, false) && unwrapped(c2, q),
        Cfg::Loop(body) => if peelable(*body, nodes) {
            let b = body->Block_0;
            if room {
                peeled_loop(c2, b, nodes, room, count_assigned(b.memory@), lo)
            } else {
                c2 == c1 || peeled_loop(c2, b, nodes, room, count_assigned(b.memory@), lo)
            }
        } else {
            c2 is Loop && peel_pass(*c2->Loop_0, *body, nodes, room, lo)
        },
        Cfg::If(body) => c2 is If && peel_pass(*c2->If_0, *body, nodes, room, lo),
    }
}

/// Whether the graph has room to clone a block: a block ID is left, and an
/// input ID for each node that the clone could read.
pub open spec fn peel_room(g: &Graph) -> bool {
    g.spec_next_block().0 < u32::MAX && g.spec_next_input().0 + g@.len() <= u32::MAX
}

/// Being a prefix is transitive.
proof fn lemma_prefix_trans(a: Seq<Node>, b: Seq<Node>, c: Seq<Node>)
    requires
        prefix(a, b),
        prefix(b, c),
    ensures
        prefix(a, c),
{
    assert(c.take(a.len() as int) =~= b.take(a.len() as int));
}

/// Whether a node reads from a block does not change when the graph grows.
proof fn lemma_reads_extend(n1: Seq<Node>, n2: Seq<Node>, id: NodeId, block: &Block, from: BlockId)
    requires
        prefix(n1, n2),
        id.0 < n1.len(),
    ensures
        reads(n2, id, block, from) == reads(n1, id, block, from),
    decreases id.0,
{
    assert(n2[id.0 as int] == n2.take(n1.len() as int)[id.0 as int]);
    match n1[id.0 as int] {
        Node::Add(l, r) | Node::Mul(l, r) => {
            if l.0 < id.0 && r.0 < id.0 {
                lemma_reads_extend(n1, n2, l, block, from);
                lemma_reads_extend(n1, n2, r, block, from);
            }
        },
        _ => {},
    }
}

/// Whether a loop is peelable does not change when the graph grows.
proof fn lemma_peelable_extend(body: Cfg, n1: Seq<Node>, n2: Seq<Node>)
    requires
        prefix(n1, n2),
        cfg_below(body, n1.len()),
    ensures
        peelable(body, n2) == peelable(body, n1),
{
    if let Cfg::Block(b) = body {
        assert forall|k: int| 0 <= k < b.memory@.len() && (#[trigger] b.memory@[k]) is Some implies reads(
            n2,
            b.memory@[k]->0,
            &b,
            b.id,
        ) == reads(n1, b.memory@[k]->0, &b, b.id) by {
            lemma_reads_extend(n1, n2, b.memory@[k]->0, &b, b.id);
        }
    }
}

/// A peeled tail stays one when the graph grows, and for a lower bound on
/// its fresh inputs.
proof fn lemma_cloned_tail_extend(t: Block, b: Block, n1: Seq<Node>, n2: Seq<Node>, lo1: int, lo2: int, hi: int)
    requires
        cloned_tail(t, b, n1, lo1, hi),
        prefix(n1, n2),
        lo2 <= lo1,
    ensures
        cloned_tail(t, b, n2, lo2, hi),
{
    let (n0, m1, m2, t0, t1, map) = choose|n0: Seq<Node>, m1: Seq<Node>, m2: Seq<Node>, t0: Block, t1: Block, map: Map<u32, NodeId>|
        #![trigger cloned_block(&t0, &b, m1, n0, map), const_copied(&t, &t1, &b, m2, m1)]
        prefix(n0, m1) && prefix(m1, m2) && prefix(m2, n1) && inputs_map_wf(map, m1, input_keys(n0, n0.len() as int))
            && (forall|i: InputId| block_reads(&b, n0, i) ==> map.contains_key(i.0))
            && fresh_inputs(map, Map::empty(), m1, lo1, hi)
            && cloned_block(&t0, &b, m1, n0, map) && stores_removed(&t1, &t0, &b, m1) && const_copied(&t, &t1, &b, m2, m1);
    lemma_prefix_trans(m2, n1, n2);
    assert(fresh_inputs(map, Map::empty(), m1, lo2, hi));
}

/// A peeled loop stays one when the graph grows, when the room that it was
/// peeled with shrinks, and for a lower bound on its fresh inputs.
proof fn lemma_peeled_loop_extend(
    c2: Cfg,
    b: Block,
    n1: Seq<Node>,
    n2: Seq<Node>,
    r1: bool,
    r2: bool,
    fuel: nat,
    lo1: int,
    lo2: int,
)
    requires
        peeled_loop(c2, b, n1, r1, fuel, lo1),
        prefix(n1, n2),
        r2 ==> r1,
        lo2 <= lo1,
    ensures
        peeled_loop(c2, b, n2, r2, fuel, lo2),
    decreases fuel,
{
    let (t, tc, tail, s, hi) = choose|t: Block, tc: Cfg, tail: Cfg, s: Seq<Cfg>, hi: int|
        #![trigger cloned_tail(t, b, n1, lo1, hi), closed_form_pass(tc, looped(t), n1), folded(s, peeled_items(b, tail), n1, true)]
        cloned_tail(t, b, n1, lo1, hi) && closed_form_pass(tc, looped(t), n1) && cfg_below(tc, n1.len())
            && (if tc is Loop && peelable(*tc->Loop_0, n1) && fuel > 1 {
            if r1 {
                peeled_loop(tail, tc->Loop_0->Block_0, n1, r1, (fuel - 1) as nat, hi)
            } else {
                tail == tc || peeled_loop(tail, tc->Loop_0->Block_0, n1, r1, (fuel - 1) as nat, hi)
            }
        } else {
            tail == tc
        }) && folded(s, peeled_items(b, tail), n1, true) && (c2 matches Cfg::If(body) && unwrapped(*body, s));
    lemma_cloned_tail_extend(t, b, n1, n2, lo1, lo2, hi);
    lemma_closed_form_pass_extend(tc, looped(t), n1, n2);
    lemma_cfg_below_mono(tc, n1.len(), n2.len());
    if tc is Loop {
        lemma_peelable_extend(*tc->Loop_0, n1, n2);
        if peelable(*tc->Loop_0, n1) && fuel > 1 && tail != tc {
            lemma_peeled_loop_extend(tail, tc->Loop_0->Block_0, n1, n2, r1, r2, (fuel - 1) as nat, hi, hi);
        }
    }
    lemma_folded_extend(s, peeled_items(b, tail), n1, n2, true);
}

/// The pass relation stays when the graph grows, when the room that it ran
/// with shrinks, and for a lower bound on its fresh inputs.
proof fn lemma_peel_pass_extend(c2: Cfg, c1: Cfg, n1: Seq<Node>, n2: Seq<Node>, r1: bool, r2: bool, lo1: int, lo2: int)
    requires
        peel_pass(c2, c1, n1, r1, lo1),
        cfg_below(c1, n1.len()),
        prefix(n1, n2),
        r2 ==> r1,
        lo2 <= lo1,
    ensures
        peel_pass(c2, c1, n2, r2, lo2),
    decreases c1,
{
    match c1 {
        Cfg::Block(_) => {},
        Cfg::Sequence(s) => {
            let p = choose|p: Seq<Cfg>|
                #![trigger p.len()]
                p.len() == s.cfgs@.len() && (forall|k: int|
                    0 <= k < s.cfgs@.len() ==> peel_pass(p[k], #[trigger] s.cfgs@[k], n1, r1, lo1))
                    && exists|q: Seq<Cfg>| folded(q, spliced(p), n1, false) && unwrapped(c2, q);
            let q = choose|q: Seq<Cfg>| folded(q, spliced(p), n1, false) && unwrapped(c2, q);
            assert forall|k: int| 0 <= k < s.cfgs@.len() implies peel_pass(p[k], #[trigger] s.cfgs@[k], n2, r2, lo2) by {
                assert(cfg_below(s.spec_cfgs()[k], n1.len()));
                lemma_peel_pass_extend(p[k], s.cfgs@[k], n1, n2, r1, r2, lo1, lo2);
            }
            lemma_folded_extend(q, spliced(p), n1, n2, false);
            assert(folded(q, spliced(p), n2, false) && unwrapped(c2, q));
        },
        Cfg::Loop(body) => {
            lemma_peelable_extend(*body, n1, n2);
            if peelable(*body, n1) {
                if c2 != c1 {
                    lemma_peeled_loop_extend(c2, body->Block_0, n1, n2, r1, r2, count_assigned(body->Block_0.memory@), lo1, lo2);
                }
            } else {
                lemma_peel_pass_extend(*c2->Loop_0, *body, n1, n2, r1, r2, lo1, lo2);
            }
        },
        Cfg::If(body) => {
            lemma_peel_pass_extend(*c2->If_0, *body, n1, n2, r1, r2, lo1, lo2);
        },
    }
}

impl Block {
    /// Returns the number of cells that the block assigns.
    fn assigned_cells(&self) -> (n: usize)
        ensures
            n == count_assigned(self.memory@),
    {
        let mut n: usize = 0;
        let mut k: usize = 0;
        while k < self.memory.len()
            invariant
                k <= self.memory@.len(),
                n == count_assigned(self.memory@.take(k as int)),
                n <= k,
            decreases self.memory@.len() - k,
        {
            proof {
                assert(self.memory@.take(k + 1).drop_last() =~= self.memory@.take(k as int));
            }
            if self.memory[k].is_some() {
                n = n + 1;
            }
            k = k + 1;
        }
        proof {
            assert(self.memory@.take(self.memory@.len() as int) =~= self.memory@);
        }
        n
    }

    /// Returns whether at least one value in the block stores a value that
    /// would not change after another iteration.
    fn has_invariant_stores(&self, g: &Graph) -> (r: bool)
        requires
            g.wf(),
            self.nodes_below(g@.len()),
        ensures
            r == has_invariant_store(self, g@),
    {
        let mut k: usize = 0;
        while k < self.memory.len()
            invariant
                g.wf(),
                self.nodes_below(g@.len()),
                k <= self.memory@.len(),
                forall|j: int|
                    0 <= j < k && (#[trigger] self.memory@[j]) is Some ==> reads(g@, self.memory@[j]->0, self, self.id),
            decreases self.memory@.len() - k,
        {
            if let Some(cell) = self.memory[k] {
                proof {
                    assert(self.memory@[k as int] matches Some(id) ==> id.0 < g@.len());
                }
                if !g.get(cell).reads_from(self, self.id) {
                    return true;
                }
            }
            k = k + 1;
        }
        false
    }

    /// Removes any values stored in the block that would not change after
    /// another iteration.
    fn remove_invariant_stores(&mut self, peeled: &Block, g: &Graph)
        requires
            g.wf(),
            old(self).nodes_below(g@.len()),
        ensures
            stores_removed(final(self), old(self), peeled, g@),
            final(self).nodes_below(g@.len()),
    {
        let ghost b0 = *self;
        let curr = self.id;
        let mut k: usize = 0;
        while k < self.memory.len()
            invariant
                g.wf(),
                b0.nodes_below(g@.len()),
                curr == b0.id,
                self.id == b0.id,
                self.offset == b0.offset,
                self.min_offset == b0.min_offset,
                self.guarded_left == b0.guarded_left,
                self.guarded_right == b0.guarded_right,
                self.effects@ == b0.effects@,
                self.memory@.len() == b0.memory@.len(),
                k <= self.memory@.len(),
                forall|j: int| k <= j < self.memory@.len() ==> #[trigger] self.memory@[j] == b0.memory@[j],
                forall|j: int|
                    0 <= j < k ==> #[trigger] self.memory@[j] == match b0.memory@[j] {
                        Some(x) => if reads(g@, x, peeled, b0.id) {
                            Some(x)
                        } else {
                            None
                        },
                        None => None,
                    },
            decreases self.memory@.len() - k,
        {
            if let Some(cell) = self.memory[k] {
                proof {
                    assert(b0.memory@[k as int] matches Some(id) ==> id.0 < g@.len());
                }
                if !g.get(cell).reads_from(peeled, curr) {
                    self.memory.set(k, None);
                }
            }
            k = k + 1;
        }
        proof {
            assert forall|j: int| 0 <= j < self.memory@.len() implies (#[trigger] self.memory@[j] matches Some(id) ==> id.0 < g@.len()) by {
                assert(b0.memory@[j] matches Some(id) ==> id.0 < g@.len());
            }
        }
    }
}

/// Peels the first iteration off a loop over block `b`: `b`, then the rest
/// of the loop, under an `If`. The rest is peeled again while it stays
/// peelable, at most `fuel` peels in all.
#[verifier::rlimit(60)]
fn peel_block(b: Block, fuel: usize, g: &mut Graph) -> (c: Cfg)
    requires
        old(g).wf(),
        cfg_below(Cfg::Block(b), old(g)@.len()),
        b.offset.0 == 0,
        peel_room(old(g)),
        fuel >= 1,
    ensures
        final(g).wf(),
        final(g).extends(old(g)),
        final(g).spec_next_block().0 >= old(g).spec_next_block().0,
        final(g).spec_next_input().0 >= old(g).spec_next_input().0,
        cfg_below(c, final(g)@.len()),
        peeled_loop(c, b, final(g)@, peel_room(final(g)), fuel as nat, old(g).spec_next_input().0 as int),
    decreases fuel,
{
    let ghost g0 = *g;
    let mut t = b.clone_fresh(g);
    let ghost g1 = *g;
    let ghost t0 = t;
    proof {
        g1.lemma_extends(&g0);
        lemma_nodes_below_mono(&b, g0@.len(), g1@.len());
    }
    t.remove_invariant_stores(&b, g);
    let ghost t1 = t;
    proof {
        g.lemma_copy_bound();
        lemma_copies_shiftable(g, t.id, 0);
    }
    t.copy_const(&b, g);
    let ghost g2 = *g;
    let ghost tt = t;
    let mut tc = Cfg::Loop(Box::new(Cfg::Block(t)));
    proof {
        assert(tt.fits());
        assert(cfg_below(Cfg::Block(tt), g2@.len()));
        assert(cfg_below(tc, g2@.len()));
    }
    tc.opt_closed_form_add(g);
    let ghost g3 = *g;
    let ghost tc0 = tc;
    proof {
        g1.lemma_extends(&g0);
        g2.lemma_extends(&g1);
        g3.lemma_extends(&g2);
        Graph::lemma_extends_trans(&g0, &g1, &g2);
        Graph::lemma_extends_trans(&g0, &g2, &g3);
        lemma_nodes_below_mono(&b, g0@.len(), g3@.len());
    }
    let tail = if fuel > 1 && g.has_clone_room() {
        match tc {
            Cfg::Loop(body) => match *body {
                Cfg::Block(t2) => {
                    proof {
                        assert(cfg_below(Cfg::Block(t2), g3@.len()));
                    }
                    if t2.offset.0 == 0 && t2.has_invariant_stores(g) {
                        peel_block(t2, fuel - 1, g)
                    } else {
                        proof {
                            g.lemma_extends_refl();
                        }
                        Cfg::Loop(Box::new(Cfg::Block(t2)))
                    }
                },
                other => {
                    proof {
                        g.lemma_extends_refl();
                    }
                    Cfg::Loop(Box::new(other))
                },
            },
            other => {
                proof {
                    g.lemma_extends_refl();
                }
                other
            },
        }
    } else {
        proof {
            g.lemma_extends_refl();
        }
        tc
    };
    let ghost g4 = *g;
    let ghost tail0 = tail;
    proof {
        g4.lemma_extends(&g3);
        Graph::lemma_extends_trans(&g0, &g3, &g4);
        lemma_nodes_below_mono(&b, g3@.len(), g4@.len());
        assert(cfg_below(Cfg::Block(b), g4@.len()));
        if tail0 == tc0 {
            lemma_cfg_below_mono(tc0, g3@.len(), g4@.len());
        }
        assert(cfg_below(tail0, g4@.len()));
    }
    let ghost bb = b;
    let items = vec![Cfg::Block(b), tail];
    proof {
        assert(items@ == seq![Cfg::Block(bb), tail0]);
        assert(cfgs_below(items@, g4@.len()));
    }
    let s = Sequence::from_iter(items, g);
    let ghost sc = s.spec_cfgs();
    let c = Cfg::If(Box::new(s.into_cfg()));
    proof {
        let nf = g@;
        g.lemma_extends(&g4);
        Graph::lemma_extends_trans(&g0, &g4, g);
        assert(prefix(g0@, g1@));
        assert(prefix(g1@, g2@));
        assert(prefix(g2@, g3@));
        assert(prefix(g3@, g4@));
        assert(prefix(g4@, nf));
        lemma_prefix_trans(g2@, g3@, g4@);
        lemma_prefix_trans(g2@, g4@, nf);
        lemma_prefix_trans(g3@, g4@, nf);
        let map = choose|map: Map<u32, NodeId>|
            #[trigger] inputs_map_wf(map, g1@, input_keys(g0@, g0@.len() as int))
            && cloned_block(&t0, &bb, g1@, g0@, map) && g1.spec_next_input().0
            == g0.spec_next_input().0 + map.dom().len()
            && (forall|i: InputId| block_reads(&bb, g0@, i) ==> map.contains_key(i.0))
            && fresh_inputs(map, Map::empty(), g1@, g0.spec_next_input().0 as int, g1.spec_next_input().0 as int);
        assert(cloned_block(&t0, &bb, g1@, g0@, map) && const_copied(&tt, &t1, &bb, g2@, g1@));
        assert(cloned_tail(tt, bb, nf, g0.spec_next_input().0 as int, g1.spec_next_input().0 as int));
        lemma_closed_form_pass_extend(tc0, looped(tt), g3@, nf);
        lemma_cfg_below_mono(tc0, g3@.len(), nf.len());
        // The room shrinks as the graph grows.
        assert(peel_room(g) ==> peel_room(&g4));
        assert(peel_room(&g4) ==> peel_room(&g3));
        if tc0 is Loop {
            lemma_peelable_extend(*tc0->Loop_0, g3@, nf);
        }
        if tail0 != tc0 {
            lemma_peeled_loop_extend(
                tail0,
                tc0->Loop_0->Block_0,
                g4@,
                nf,
                peel_room(&g4),
                peel_room(g),
                (fuel - 1) as nat,
                g3.spec_next_input().0 as int,
                g1.spec_next_input().0 as int,
            );
        }
        assert(peeled_items(bb, tail0) == seq![Cfg::Block(bb), tail0]);
        assert(folded(sc, peeled_items(bb, tail0), nf, true));
        assert(cfg_below(c, nf.len())) by {
            assert(cfgs_below(sc, nf.len()));
            if sc.len() == 1 {
                assert(cfg_below(sc[0], nf.len()));
            } else {
                assert forall|k: int| 0 <= k < sc.len() implies cfg_below(#[trigger] c->If_0->Sequence_0.spec_cfgs()[k], nf.len()) by {
                    assert(c->If_0->Sequence_0.spec_cfgs()[k] == sc[k]);
                }
            }
            assert(cfg_below(*c->If_0, nf.len()));
        }
    }
    c
}

impl Cfg {
    /// Peels the first iterations of each loop whose block has no net shift
    /// and stores values that become loop-invariant, converting what is left
    /// of the loop to its closed form.
    #[verifier::rlimit(60)]
    pub fn opt_peel(&mut self, g: &mut Graph)
        requires
            old(g).wf(),
            cfg_below(*old(self), old(g)@.len()),
        ensures
            final(g).wf(),
            final(g).extends(old(g)),
            final(g).spec_next_block().0 >= old(g).spec_next_block().0,
            final(g).spec_next_input().0 >= old(g).spec_next_input().0,
            cfg_below(*final(self), final(g)@.len()),
            peel_pass(*final(self), *old(self), final(g)@, peel_room(final(g)), old(g).spec_next_input().0 as int),
        decreases *old(self),
    {
        let ghost c0 = *self;
        let ghost g0 = *g;
        let mut cur = Cfg::empty();
        std::mem::swap(&mut cur, self);
        proof {
            g.lemma_extends_refl();
        }
        match cur {
            Cfg::Block(b) => {
                *self = Cfg::Block(b);
                proof {
                    assert(peel_pass(*self, c0, g@, peel_room(g), g0.spec_next_input().0 as int));
                }
            },
            Cfg::Sequence(seq) => {
                let ghost items = seq.cfgs@;
                proof {
                    assert forall|j: int| 0 <= j < items.len() implies cfg_below(#[trigger] items[j], g0@.len()) by {
                        assert(cfg_below(seq.spec_cfgs()[j], g0@.len()));
                    }
                }
                let mut rest = seq.cfgs;
                let mut out: Vec<Cfg> = Vec::new();
                let n = rest.len();
                let mut k: usize = 0;
                while k < n
                    invariant
                        g0 == *old(g),
                        c0 == *old(self),
                        c0 == Cfg::Sequence(seq),
                        items == seq.cfgs@,
                        n == items.len(),
                        k <= n,
                        rest@.len() == n,
                        forall|j: int| k <= j < n ==> rest@[j] == items[j],
                        out@.len() == k,
                        g0.wf(),
                        g.wf(),
                        g.extends(&g0),
                        g.spec_next_block().0 >= g0.spec_next_block().0,
                        g.spec_next_input().0 >= g0.spec_next_input().0,
                        forall|j: int| 0 <= j < n ==> cfg_below(#[trigger] items[j], g0@.len()),
                        forall|j: int| 0 <= j < k ==> cfg_below(#[trigger] out@[j], g@.len()),
                        forall|j: int| 0 <= j < k ==> peel_pass(#[trigger] out@[j], items[j], g@, peel_room(g), g0.spec_next_input().0 as int),
                    decreases n - k,
                {
                    let ghost gk = *g;
                    let mut item = Cfg::empty();
                    std::mem::swap(&mut item, &mut rest[k]);
                    proof {
                        assert(item == items[k as int]);
                        assert(decreases_to!(c0 => c0->Sequence_0));
                        assert(c0->Sequence_0 == seq);
                        assert(decreases_to!(seq => seq.cfgs));
                        assert(decreases_to!(seq.cfgs => seq.cfgs@));
                        assert(decreases_to!(seq.cfgs@ => seq.cfgs@[k as int]));
                        assert(decreases_to!(c0 => item));
                        g.lemma_extends(&g0);
                        assert(cfg_below(items[k as int], g0@.len()));
                        lemma_cfg_below_mono(item, g0@.len(), g@.len());
                    }
                    item.opt_peel(g);
                    proof {
                        Graph::lemma_extends_trans(&g0, &gk, g);
                        g.lemma_extends(&gk);
                        assert(prefix(gk@, g@));
                        assert(g@.take(g@.len() as int) =~= g@);
                        lemma_cfg_below_mono(items[k as int], g0@.len(), g@.len());
                        lemma_peel_pass_extend(
                            item,
                            items[k as int],
                            g@,
                            g@,
                            peel_room(g),
                            peel_room(g),
                            gk.spec_next_input().0 as int,
                            g0.spec_next_input().0 as int,
                        );
                        assert forall|j: int| 0 <= j < k implies cfg_below(#[trigger] out@[j], g@.len())
                            && peel_pass(out@[j], items[j], g@, peel_room(g), g0.spec_next_input().0 as int) by {
                            lemma_cfg_below_mono(out@[j], gk@.len(), g@.len());
                            lemma_cfg_below_mono(items[j], g0@.len(), gk@.len());
                            lemma_peel_pass_extend(out@[j], items[j], gk@, g@, peel_room(&gk), peel_room(g), g0.spec_next_input().0 as int, g0.spec_next_input().0 as int);
                        }
                    }
                    out.push(item);
                    k = k + 1;
                }
                let ghost p = out@;
                *self = Cfg::Sequence(Sequence { cfgs: out });
                proof {
                    assert forall|j: int| 0 <= j < p.len() implies cfg_below(#[trigger] self->Sequence_0.spec_cfgs()[j], g@.len()) by {
                        assert(self->Sequence_0.spec_cfgs()[j] == p[j]);
                    }
                }
                let ghost gs = *g;
                proof {
                    gs.lemma_extends(&g0);
                }
                self.flatten(g);
                proof {
                    Graph::lemma_extends_trans(&g0, &gs, g);
                    g.lemma_extends(&gs);
                    assert(prefix(gs@, g@));
                    assert forall|j: int| 0 <= j < items.len() implies peel_pass(p[j], #[trigger] items[j], g@, peel_room(g), g0.spec_next_input().0 as int) by {
                        lemma_cfg_below_mono(items[j], g0@.len(), gs@.len());
                        lemma_peel_pass_extend(p[j], items[j], gs@, g@, peel_room(&gs), peel_room(g), g0.spec_next_input().0 as int, g0.spec_next_input().0 as int);
                    }
                    let q = choose|q: Seq<Cfg>| folded(q, spliced(p), g@, false) && unwrapped(*self, q);
                    assert(p.len() == seq.cfgs@.len());
                    assert(peel_pass(*self, c0, g@, peel_room(g), g0.spec_next_input().0 as int));
                }
            },
            Cfg::Loop(body) => {
                let inner = *body;
                match inner {
                    Cfg::Block(b) => {
                        proof {
                            assert(cfg_below(Cfg::Block(b), g0@.len()));
                        }
                        if b.offset.0 == 0 && b.has_invariant_stores(g) && g.has_clone_room() {
                            let fuel = b.assigned_cells();
                            proof {
                                let k = choose|k: int|
                                    0 <= k < b.memory@.len() && (#[trigger] b.memory@[k]) is Some && !reads(
                                        g0@,
                                        b.memory@[k]->0,
                                        &b,
                                        b.id,
                                    );
                                lemma_count_assigned_some(b.memory@, k);
                            }
                            *self = peel_block(b, fuel, g);
                            proof {
                                g.lemma_extends(&g0);
                                lemma_peelable_extend(Cfg::Block(b), g0@, g@);
                                assert(peelable(Cfg::Block(b), g@));
                                assert(peel_pass(*self, c0, g@, peel_room(g), g0.spec_next_input().0 as int));
                            }
                        } else {
                            *self = Cfg::Loop(Box::new(Cfg::Block(b)));
                            proof {
                                assert(peel_pass(Cfg::Block(b), Cfg::Block(b), g@, peel_room(g), g0.spec_next_input().0 as int));
                                assert(peel_pass(*self, c0, g@, peel_room(g), g0.spec_next_input().0 as int));
                            }
                        }
                    },
                    other => {
                        let mut o = other;
                        proof {
                            assert(decreases_to!(c0 => *body));
                        }
                        o.opt_peel(g);
                        *self = Cfg::Loop(Box::new(o));
                        proof {
                            assert(peel_pass(*self, c0, g@, peel_room(g), g0.spec_next_input().0 as int));
                        }
                    },
                }
            },
            Cfg::If(then) => {
                let mut t = *then;
                t.opt_peel(g);
                *self = Cfg::If(Box::new(t));
                proof {
                    assert(peel_pass(*self, c0, g@, peel_room(g), g0.spec_next_input().0 as int));
                }
            },
        }
    }
}

/// A memory with an assigned cell assigns at least one.
proof fn lemma_count_assigned_some(memory: Seq<Option<NodeId>>, k: int)
    requires
        0 <= k < memory.len(),
        memory[k] is Some,
    ensures
        count_assigned(memory) >= 1,
    decreases memory.len(),
{
    if k < memory.len() - 1 {
        lemma_count_assigned_some(memory.drop_last(), k);
    }
}

} // verus!
