//! The control-flow graph of a program: basic blocks in sequences, loops and
//! conditionals.

use vstd::prelude::*;

use crate::block::{lemma_copies_shiftable, lemma_nodes_below_mono, Block};
use crate::egraph::{copy_bound_of, lemma_copy_bound_prefix, Graph};
use crate::node::Node;

verus! {

/// The control-flow graph of a program.
pub enum Cfg {
    /// Basic block.
    Block(Block),
    /// Sequence.
    Sequence(Sequence),
    /// Loop while the current cell is non-zero.
    Loop(Box<Cfg>),
    /// If the current cell is non-zero.
    If(Box<Cfg>),
}

/// A sequence of control-flow nodes.
pub struct Sequence {
    /// The control-flow nodes, in order.
    pub cfgs: Vec<Cfg>,
}

impl Sequence {
    /// The control-flow nodes of the sequence, in order.
    pub open spec fn spec_cfgs(&self) -> Seq<Cfg> {
        self.cfgs@
    }
}

/// Every block in `cfg` refers to nodes below `n`, and its offsets fit.
pub open spec fn cfg_below(cfg: Cfg, n: nat) -> bool
    decreases cfg,
{
    match cfg {
        Cfg::Block(b) => b.nodes_below(n) && b.fits(),
        Cfg::Sequence(s) => forall|k: int|
            0 <= k < s.spec_cfgs().len() ==> cfg_below(#[trigger] s.spec_cfgs()[k], n),
        Cfg::Loop(body) => cfg_below(*body, n),
        Cfg::If(body) => cfg_below(*body, n),
    }
}

/// Every control-flow node of a sequence satisfies `cfg_below`.
pub open spec fn cfgs_below(cfgs: Seq<Cfg>, n: nat) -> bool {
    forall|k: int| 0 <= k < cfgs.len() ==> cfg_below(#[trigger] cfgs[k], n)
}


/// The blocks of a control-flow graph below `n` are below any larger bound.
pub proof fn lemma_cfg_below_mono(cfg: Cfg, n: nat, m: nat)
    requires
        cfg_below(cfg, n),
        n <= m,
    ensures
        cfg_below(cfg, m),
    decreases cfg,
{
    match cfg {
        Cfg::Block(b) => lemma_nodes_below_mono(&b, n, m),
        Cfg::Sequence(s) => {
            assert forall|k: int| 0 <= k < s.spec_cfgs().len() implies cfg_below(#[trigger] s.spec_cfgs()[k], m) by {
                lemma_cfg_below_mono(s.spec_cfgs()[k], n, m);
            }
        },
        Cfg::Loop(body) => lemma_cfg_below_mono(*body, n, m),
        Cfg::If(body) => lemma_cfg_below_mono(*body, n, m),
    }
}

/// The sequence version of `lemma_cfg_below_mono`.
pub proof fn lemma_cfgs_below_mono(cfgs: Seq<Cfg>, n: nat, m: nat)
    requires
        cfgs_below(cfgs, n),
        n <= m,
    ensures
        cfgs_below(cfgs, m),
{
    assert forall|k: int| 0 <= k < cfgs.len() implies cfg_below(#[trigger] cfgs[k], m) by {
        lemma_cfg_below_mono(cfgs[k], n, m);
    }
}

/// Whether `s2` is `s` with `cfg` added: a block after a block is
/// concatenated to it when their offsets fit with the copy bound of the graph
/// `nodes0` before, and the concatenation is added in turn to what comes
/// before; anything else is appended.
pub open spec fn merge_step(s2: Seq<Cfg>, s: Seq<Cfg>, cfg: Cfg, nodes2: Seq<Node>, nodes0: Seq<Node>) -> bool
    decreases s.len(),
{
    if s.len() > 0 && s.last() is Block && cfg is Block && s.last()->Block_0.concat_fits(
        &cfg->Block_0,
        copy_bound_of(nodes0),
    ) {
        exists|c: Block, nodes1: Seq<Node>|
            #![trigger c.concatenation_of(&s.last()->Block_0, &cfg->Block_0, nodes1, nodes0)]
            nodes0.len() <= nodes1.len() <= nodes2.len() && nodes1.take(nodes0.len() as int) == nodes0
                && nodes2.take(nodes1.len() as int) == nodes1 && c.concatenation_of(
                &s.last()->Block_0,
                &cfg->Block_0,
                nodes1,
                nodes0,
            ) && merge_step(s2, s.drop_last(), Cfg::Block(c), nodes2, nodes1)
    } else {
        s2 == s.push(cfg)
    }
}

/// Whether the control-flow nodes at `i` and `i + 1` of `s` cannot be
/// concatenated: one of them is no block, or their offsets do not fit with
/// the copy bound `bound`.
pub open spec fn apart(s: Seq<Cfg>, i: int, bound: int) -> bool {
    !(s[i] is Block && s[i + 1] is Block && s[i]->Block_0.concat_fits(&s[i + 1]->Block_0, bound))
}

/// Whether no two adjacent blocks of `s` can be concatenated with the copy
/// bound `bound`.
pub open spec fn no_joinable(s: Seq<Cfg>, bound: int) -> bool {
    forall|i: int| 0 <= i < s.len() - 1 ==> #[trigger] apart(s, i, bound)
}

/// Blocks that cannot be concatenated with a copy bound cannot be with a
/// larger one.
proof fn lemma_no_joinable_mono(s: Seq<Cfg>, b1: int, b2: int)
    requires
        no_joinable(s, b1),
        b1 <= b2,
    ensures
        no_joinable(s, b2),
{
    assert forall|i: int| 0 <= i < s.len() - 1 implies #[trigger] apart(s, i, b2) by {
        assert(apart(s, i, b1));
    }
}

/// Dropping the last control-flow node keeps the others apart.
proof fn lemma_no_joinable_drop_last(s: Seq<Cfg>, b: int)
    requires
        no_joinable(s, b),
        s.len() > 0,
    ensures
        no_joinable(s.drop_last(), b),
{
    assert forall|i: int| 0 <= i < s.drop_last().len() - 1 implies #[trigger] apart(s.drop_last(), i, b) by {
        assert(apart(s, i, b));
        assert(s.drop_last()[i] == s[i] && s.drop_last()[i + 1] == s[i + 1]);
    }
}

/// Pushing a control-flow node that is apart from the last keeps all apart.
proof fn lemma_no_joinable_push(s: Seq<Cfg>, cfg: Cfg, b: int)
    requires
        no_joinable(s, b),
        s.len() > 0 ==> apart(s.push(cfg), s.len() - 1, b),
    ensures
        no_joinable(s.push(cfg), b),
{
    assert forall|i: int| 0 <= i < s.push(cfg).len() - 1 implies #[trigger] apart(s.push(cfg), i, b) by {
        if i < s.len() - 1 {
            assert(apart(s, i, b));
            assert(s.push(cfg)[i] == s[i] && s.push(cfg)[i + 1] == s[i + 1]);
        }
    }
}

/// Whether `s2` is what adding each of `items` in turn to `s` by
/// `merge_step` gives, each over a graph that the final graph `nodes` extends.
pub open spec fn merged_from(s2: Seq<Cfg>, s: Seq<Cfg>, items: Seq<Cfg>, nodes: Seq<Node>) -> bool
    decreases items.len(),
{
    &&& cfgs_below(s2, nodes.len())
    &&& if items.len() == 0 {
        s2 == s
    } else {
        exists|p: Seq<Cfg>, nodes0: Seq<Node>|
            #![trigger merge_step(s2, p, items.last(), nodes, nodes0)]
            merged_from(p, s, items.drop_last(), nodes) && nodes0.len() <= nodes.len() && nodes.take(
                nodes0.len() as int,
            ) == nodes0 && merge_step(s2, p, items.last(), nodes, nodes0)
    }
}

/// Whether `s2` is `s` with `cfg` pushed: the parts of a sequence are added
/// in turn, and anything else is added, as `merge_step` says.
pub open spec fn pushed(s2: Seq<Cfg>, s: Seq<Cfg>, cfg: Cfg, nodes2: Seq<Node>, nodes0: Seq<Node>) -> bool {
    match cfg {
        Cfg::Sequence(inner) => merged_from(s2, s, inner.spec_cfgs(), nodes2),
        _ => merge_step(s2, s, cfg, nodes2, nodes0),
    }
}

/// Whether `s2` is what pushing each of `items` in turn to `s` gives.
pub open spec fn pushes_from(s2: Seq<Cfg>, s: Seq<Cfg>, items: Seq<Cfg>, nodes: Seq<Node>) -> bool
    decreases items.len(),
{
    &&& cfgs_below(s2, nodes.len())
    &&& if items.len() == 0 {
        s2 == s
    } else {
        exists|p: Seq<Cfg>, nodes0: Seq<Node>|
            #![trigger pushed(s2, p, items.last(), nodes, nodes0)]
            pushes_from(p, s, items.drop_last(), nodes) && nodes0.len() <= nodes.len() && nodes.take(
                nodes0.len() as int,
            ) == nodes0 && pushed(s2, p, items.last(), nodes, nodes0)
    }
}

/// Whether `s` is what adding each of `items` in turn to an empty sequence
/// gives, over the graph `nodes`: by pushing when `splice` holds, so that
/// the parts of a sequence are added one by one, else by `merge_step`.
pub open spec fn folded(s: Seq<Cfg>, items: Seq<Cfg>, nodes: Seq<Node>, splice: bool) -> bool {
    if splice {
        pushes_from(s, Seq::empty(), items, nodes)
    } else {
        merged_from(s, Seq::empty(), items, nodes)
    }
}

/// The sequence that splices each sequence in `p` into its place.
pub open spec fn spliced(p: Seq<Cfg>) -> Seq<Cfg>
    decreases p.len(),
{
    if p.len() == 0 {
        Seq::empty()
    } else {
        spliced(p.drop_last()) + match p.last() {
            Cfg::Sequence(inner) => inner.spec_cfgs(),
            c => seq![c],
        }
    }
}

/// A step stays one when the graph grows.
proof fn lemma_merge_step_extend(
    s2: Seq<Cfg>,
    s: Seq<Cfg>,
    cfg: Cfg,
    nodes2: Seq<Node>,
    nodes3: Seq<Node>,
    nodes0: Seq<Node>,
)
    requires
        merge_step(s2, s, cfg, nodes2, nodes0),
        nodes2.len() <= nodes3.len(),
        nodes3.take(nodes2.len() as int) == nodes2,
    ensures
        merge_step(s2, s, cfg, nodes3, nodes0),
    decreases s.len(),
{
    if s.len() > 0 && s.last() is Block && cfg is Block && s.last()->Block_0.concat_fits(
        &cfg->Block_0,
        copy_bound_of(nodes0),
    ) {
        let (c, nodes1) = choose|c: Block, nodes1: Seq<Node>|
            #![trigger c.concatenation_of(&s.last()->Block_0, &cfg->Block_0, nodes1, nodes0)]
            nodes0.len() <= nodes1.len() <= nodes2.len() && nodes1.take(nodes0.len() as int) == nodes0
                && nodes2.take(nodes1.len() as int) == nodes1 && c.concatenation_of(
                &s.last()->Block_0,
                &cfg->Block_0,
                nodes1,
                nodes0,
            ) && merge_step(s2, s.drop_last(), Cfg::Block(c), nodes2, nodes1);
        lemma_merge_step_extend(s2, s.drop_last(), Cfg::Block(c), nodes2, nodes3, nodes1);
        assert(nodes3.take(nodes1.len() as int) =~= nodes2.take(nodes1.len() as int));
    }
}

/// A run of merges stays one when the graph grows.
proof fn lemma_merged_from_extend(s2: Seq<Cfg>, s: Seq<Cfg>, items: Seq<Cfg>, nodes2: Seq<Node>, nodes3: Seq<Node>)
    requires
        merged_from(s2, s, items, nodes2),
        nodes2.len() <= nodes3.len(),
        nodes3.take(nodes2.len() as int) == nodes2,
    ensures
        merged_from(s2, s, items, nodes3),
    decreases items.len(),
{
    lemma_cfgs_below_mono(s2, nodes2.len(), nodes3.len());
    if items.len() > 0 {
        let (p, nodes0) = choose|p: Seq<Cfg>, nodes0: Seq<Node>|
            #![trigger merge_step(s2, p, items.last(), nodes2, nodes0)]
            merged_from(p, s, items.drop_last(), nodes2) && nodes0.len() <= nodes2.len() && nodes2.take(
                nodes0.len() as int,
            ) == nodes0 && merge_step(s2, p, items.last(), nodes2, nodes0);
        lemma_merged_from_extend(p, s, items.drop_last(), nodes2, nodes3);
        lemma_merge_step_extend(s2, p, items.last(), nodes2, nodes3, nodes0);
        assert(nodes3.take(nodes0.len() as int) == nodes2.take(nodes0.len() as int));
    }
}

/// A run of pushes stays one when the graph grows.
proof fn lemma_pushes_from_extend(s2: Seq<Cfg>, s: Seq<Cfg>, items: Seq<Cfg>, nodes2: Seq<Node>, nodes3: Seq<Node>)
    requires
        pushes_from(s2, s, items, nodes2),
        nodes2.len() <= nodes3.len(),
        nodes3.take(nodes2.len() as int) == nodes2,
    ensures
        pushes_from(s2, s, items, nodes3),
    decreases items.len(),
{
    lemma_cfgs_below_mono(s2, nodes2.len(), nodes3.len());
    if items.len() > 0 {
        let (p, nodes0) = choose|p: Seq<Cfg>, nodes0: Seq<Node>|
            #![trigger pushed(s2, p, items.last(), nodes2, nodes0)]
            pushes_from(p, s, items.drop_last(), nodes2) && nodes0.len() <= nodes2.len() && nodes2.take(
                nodes0.len() as int,
            ) == nodes0 && pushed(s2, p, items.last(), nodes2, nodes0);
        lemma_pushes_from_extend(p, s, items.drop_last(), nodes2, nodes3);
        match items.last() {
            Cfg::Sequence(inner) => lemma_merged_from_extend(s2, p, inner.spec_cfgs(), nodes2, nodes3),
            _ => lemma_merge_step_extend(s2, p, items.last(), nodes2, nodes3, nodes0),
        }
        assert(nodes3.take(nodes0.len() as int) == nodes2.take(nodes0.len() as int));
        assert(pushed(s2, p, items.last(), nodes3, nodes0));
    }
}

/// A fold stays one when the graph grows.
pub proof fn lemma_folded_extend(s: Seq<Cfg>, items: Seq<Cfg>, nodes2: Seq<Node>, nodes3: Seq<Node>, splice: bool)
    requires
        folded(s, items, nodes2, splice),
        nodes2.len() <= nodes3.len(),
        nodes3.take(nodes2.len() as int) == nodes2,
    ensures
        folded(s, items, nodes3, splice),
{
    if splice {
        lemma_pushes_from_extend(s, Seq::empty(), items, nodes2, nodes3);
    } else {
        lemma_merged_from_extend(s, Seq::empty(), items, nodes2, nodes3);
    }
}

impl Cfg {
    /// Creates a CFG with no effect.
    pub fn empty() -> (cfg: Self)
        ensures
            cfg matches Cfg::Sequence(s) && s.spec_cfgs().len() == 0,
            forall|n: nat| cfg_below(cfg, n),
    {
        Cfg::Sequence(Sequence::new())
    }
}

impl Sequence {
    /// Constructs a new, empty sequence.
    pub fn new() -> (s: Self)
        ensures
            s.spec_cfgs().len() == 0,
    {
        Sequence::with_capacity(0)
    }

    /// Constructs a new, empty sequence with the given capacity.
    pub fn with_capacity(capacity: usize) -> (s: Self)
        ensures
            s.spec_cfgs().len() == 0,
    {
        Sequence { cfgs: Vec::with_capacity(capacity) }
    }

    /// Constructs a sequence from externally constructed `Cfg`s. The caller
    /// must guarantee that it is flattened.
    pub fn from_unflattened(seq: Vec<Cfg>) -> (s: Self)
        ensures
            s.spec_cfgs() == seq@,
    {
        Sequence { cfgs: seq }
    }

    /// Gets this sequence as a slice.
    pub fn as_slice(&self) -> (cfgs: &[Cfg])
        ensures
            cfgs@ == self.spec_cfgs(),
    {
        self.cfgs.as_slice()
    }

    /// Gets the number of control-flow nodes in this sequence.
    pub fn len(&self) -> (n: usize)
        ensures
            n == self.spec_cfgs().len(),
    {
        self.cfgs.len()
    }

    /// Converts this to a `Cfg`, unwrapping it when it is a singleton.
    pub fn into_cfg(self) -> (cfg: Cfg)
        ensures
            self.spec_cfgs().len() == 1 ==> cfg == self.spec_cfgs()[0],
            self.spec_cfgs().len() != 1 ==> cfg == Cfg::Sequence(self),
    {
        if self.cfgs.len() == 1 {
            let mut cfgs = self.cfgs;
            cfgs.pop().unwrap()
        } else {
            Cfg::Sequence(self)
        }
    }

    /// Pushes a `Cfg` to the sequence and concatenates adjacent blocks and
    /// flattens top-level sequences.
    pub fn push(&mut self, cfg: Cfg, g: &mut Graph)
        requires
            old(g).wf(),
            cfgs_below(old(self).spec_cfgs(), old(g)@.len()),
            cfg_below(cfg, old(g)@.len()),
        ensures
            final(g).wf(),
            final(g).extends(old(g)),
            final(g).spec_next_block() == old(g).spec_next_block(),
            final(g).spec_next_input() == old(g).spec_next_input(),
            cfgs_below(final(self).spec_cfgs(), final(g)@.len()),
            pushed(final(self).spec_cfgs(), old(self).spec_cfgs(), cfg, final(g)@, old(g)@),
            no_joinable(old(self).spec_cfgs(), old(g).spec_copy_bound()) ==> no_joinable(
                final(self).spec_cfgs(),
                final(g).spec_copy_bound(),
            ),
    {
        match cfg {
            Cfg::Sequence(inner) => {
                proof {
                    assert forall|k: int| 0 <= k < inner.cfgs@.len() implies cfg_below(#[trigger] inner.cfgs@[k], g@.len()) by {
                        assert(cfg_below(inner.spec_cfgs()[k], g@.len()));
                    }
                }
                add_all(&mut self.cfgs, inner.cfgs, g);
            },
            other => add_merged(&mut self.cfgs, other, g),
        }
    }

    /// Constructs a sequence from `Cfg`s, pushing each in turn.
    pub fn from_iter(iter: Vec<Cfg>, g: &mut Graph) -> (s: Self)
        requires
            old(g).wf(),
            cfgs_below(iter@, old(g)@.len()),
        ensures
            final(g).wf(),
            final(g).extends(old(g)),
            final(g).spec_next_block() == old(g).spec_next_block(),
            final(g).spec_next_input() == old(g).spec_next_input(),
            folded(s.spec_cfgs(), iter@, final(g)@, true),
            no_joinable(s.spec_cfgs(), final(g).spec_copy_bound()),
    {
        let ghost items = iter@;
        let n = iter.len();
        let mut seq = Sequence::with_capacity(n);
        let mut rev = reversed(iter);
        proof {
            g.lemma_extends_refl();
            assert(items.take(0) =~= Seq::<Cfg>::empty());
            assert(seq.spec_cfgs() =~= Seq::<Cfg>::empty());
        }
        while rev.len() > 0
            invariant
                old(g).wf(),
                g.wf(),
                g.extends(old(g)),
                g.spec_next_block() == old(g).spec_next_block(),
                g.spec_next_input() == old(g).spec_next_input(),
                rev@.len() <= items.len(),
                cfgs_below(items, old(g)@.len()),
                forall|j: int| 0 <= j < rev@.len() ==> #[trigger] rev@[j] == items[items.len() - 1 - j],
                pushes_from(seq.spec_cfgs(), Seq::empty(), items.take(items.len() - rev@.len()), g@),
                no_joinable(seq.spec_cfgs(), g.spec_copy_bound()),
            decreases rev@.len(),
        {
            let ghost gk = *g;
            let ghost sk = seq.spec_cfgs();
            let ghost k = items.len() - rev@.len();
            let cfg = rev.pop().unwrap();
            proof {
                assert(cfg == items[k]);
                g.lemma_extends(old(g));
                assert(cfg_below(items[k], old(g)@.len()));
                lemma_cfg_below_mono(items[k], old(g)@.len(), g@.len());
            }
            seq.push(cfg, g);
            proof {
                Graph::lemma_extends_trans(old(g), &gk, g);
                g.lemma_extends(&gk);
                lemma_pushes_from_extend(sk, Seq::empty(), items.take(k), gk@, g@);
                assert(items.take(k + 1).drop_last() =~= items.take(k));
                assert(items.take(k + 1).last() == items[k]);
                assert(pushed(seq.spec_cfgs(), sk, items.take(k + 1).last(), g@, gk@));
            }
        }
        proof {
            assert(items.take(items.len() as int) =~= items);
        }
        seq
    }
}


/// Adds `cfg` to `cfgs`, concatenating a block to a preceding block when
/// their offsets fit, and the concatenation in turn to the block before.
fn add_merged(cfgs: &mut Vec<Cfg>, cfg: Cfg, g: &mut Graph)
    requires
        old(g).wf(),
        cfgs_below(old(cfgs)@, old(g)@.len()),
        cfg_below(cfg, old(g)@.len()),
    ensures
        final(g).wf(),
        final(g).extends(old(g)),
        final(g).spec_next_block() == old(g).spec_next_block(),
        final(g).spec_next_input() == old(g).spec_next_input(),
        cfgs_below(final(cfgs)@, final(g)@.len()),
        merge_step(final(cfgs)@, old(cfgs)@, cfg, final(g)@, old(g)@),
        no_joinable(old(cfgs)@, old(g).spec_copy_bound()) ==> no_joinable(
            final(cfgs)@,
            final(g).spec_copy_bound(),
        ),
    decreases old(cfgs)@.len(),
{
    let ghost s0 = cfgs@;
    let ghost g0 = *g;
    proof {
        g.lemma_extends_refl();
        g.lemma_copy_bound();
    }
    let n = cfgs.len();
    match cfg {
        Cfg::Block(b2) => {
            if n > 0 && matches!(cfgs[n - 1], Cfg::Block(_)) {
                let last = cfgs.pop().unwrap();
                proof {
                    assert(cfgs@ =~= s0.drop_last());
                    lemma_cfgs_below_mono(s0, g0@.len(), g0@.len());
                    assert forall|k: int| 0 <= k < cfgs@.len() implies cfg_below(#[trigger] cfgs@[k], g@.len()) by {
                        assert(cfgs@[k] == s0[k]);
                    }
                }
                match last {
                    Cfg::Block(mut b1) => {
                        proof {
                            assert(cfg_below(s0[n - 1], g@.len()));
                        }
                        if b1.check_concat_fits(&b2, g) {
                            proof {
                                lemma_copies_shiftable(g, b2.id, b1.offset.0 as int);
                            }
                            let ghost a1 = b1;
                            b1.concat(&b2, g);
                            let ghost g1 = *g;
                            proof {
                                g1.lemma_extends(&g0);
                                g1.lemma_copy_bound();
                                lemma_copy_bound_prefix(g0@, g1@);
                                lemma_cfgs_below_mono(cfgs@, g0@.len(), g1@.len());
                                if no_joinable(s0, g0.spec_copy_bound()) {
                                    lemma_no_joinable_drop_last(s0, g0.spec_copy_bound());
                                    lemma_no_joinable_mono(cfgs@, g0.spec_copy_bound(), g1.spec_copy_bound());
                                }
                            }
                            add_merged(cfgs, Cfg::Block(b1), g);
                            proof {
                                Graph::lemma_extends_trans(&g0, &g1, g);
                                g.lemma_extends(&g1);
                                assert(g@.take(g1@.len() as int) == g1@);
                                assert(g1@.take(g0@.len() as int) == g0@);
                                assert(s0.last() == Cfg::Block(a1));
                                assert(b1.concatenation_of(&s0.last()->Block_0, &Cfg::Block(b2)->Block_0, g1@, g0@));
                                assert(merge_step(cfgs@, s0.drop_last(), Cfg::Block(b1), g@, g1@));
                            }
                        } else {
                            cfgs.push(Cfg::Block(b1));
                            cfgs.push(Cfg::Block(b2));
                            proof {
                                assert(cfgs@ =~= s0.push(Cfg::Block(b2)));
                                if no_joinable(s0, g0.spec_copy_bound()) {
                                    assert(apart(s0.push(Cfg::Block(b2)), s0.len() - 1, g0.spec_copy_bound()));
                                    lemma_no_joinable_push(s0, Cfg::Block(b2), g0.spec_copy_bound());
                                }
                            }
                        }
                    },
                    _ => {
                        vstd::pervasive::unreached::<()>();
                    },
                }
            } else {
                cfgs.push(Cfg::Block(b2));
                proof {
                    if no_joinable(s0, g0.spec_copy_bound()) {
                        if n > 0 {
                            assert(apart(s0.push(Cfg::Block(b2)), s0.len() - 1, g0.spec_copy_bound()));
                        }
                        lemma_no_joinable_push(s0, Cfg::Block(b2), g0.spec_copy_bound());
                    }
                }
            }
        },
        other => {
            cfgs.push(other);
            proof {
                if no_joinable(s0, g0.spec_copy_bound()) {
                    if n > 0 {
                        assert(apart(s0.push(other), s0.len() - 1, g0.spec_copy_bound()));
                    }
                    lemma_no_joinable_push(s0, other, g0.spec_copy_bound());
                }
            }
        },
    }
}

/// Adds each of `items` in turn to `cfgs` as `add_merged` does.
fn add_all(cfgs: &mut Vec<Cfg>, items: Vec<Cfg>, g: &mut Graph)
    requires
        old(g).wf(),
        cfgs_below(old(cfgs)@, old(g)@.len()),
        cfgs_below(items@, old(g)@.len()),
    ensures
        final(g).wf(),
        final(g).extends(old(g)),
        final(g).spec_next_block() == old(g).spec_next_block(),
        final(g).spec_next_input() == old(g).spec_next_input(),
        merged_from(final(cfgs)@, old(cfgs)@, items@, final(g)@),
        no_joinable(old(cfgs)@, old(g).spec_copy_bound()) ==> no_joinable(
            final(cfgs)@,
            final(g).spec_copy_bound(),
        ),
{
    let ghost s0 = cfgs@;
    let ghost all = items@;
    let mut rev = reversed(items);
    proof {
        g.lemma_extends_refl();
        assert(all.take(0) =~= Seq::<Cfg>::empty());
    }
    while rev.len() > 0
        invariant
            old(g).wf(),
            g.wf(),
            g.extends(old(g)),
            g.spec_next_block() == old(g).spec_next_block(),
            g.spec_next_input() == old(g).spec_next_input(),
            rev@.len() <= all.len(),
            cfgs_below(all, old(g)@.len()),
            forall|j: int| 0 <= j < rev@.len() ==> #[trigger] rev@[j] == all[all.len() - 1 - j],
            merged_from(cfgs@, s0, all.take(all.len() - rev@.len()), g@),
            s0 == old(cfgs)@,
            no_joinable(s0, old(g).spec_copy_bound()) ==> no_joinable(cfgs@, g.spec_copy_bound()),
        decreases rev@.len(),
    {
        let ghost gk = *g;
        let ghost sk = cfgs@;
        let ghost k = all.len() - rev@.len();
        let cfg = rev.pop().unwrap();
        proof {
            assert(cfg == all[k]);
            g.lemma_extends(old(g));
            assert(cfg_below(all[k], old(g)@.len()));
            lemma_cfg_below_mono(all[k], old(g)@.len(), g@.len());
        }
        add_merged(cfgs, cfg, g);
        proof {
            Graph::lemma_extends_trans(old(g), &gk, g);
            g.lemma_extends(&gk);
            lemma_merged_from_extend(sk, s0, all.take(k), gk@, g@);
            assert(all.take(k + 1).drop_last() =~= all.take(k));
            assert(all.take(k + 1).last() == all[k]);
            assert(merge_step(cfgs@, sk, all.take(k + 1).last(), g@, gk@));
        }
    }
    proof {
        assert(all.take(all.len() as int) =~= all);
    }
}

/// Takes the control-flow nodes out of a vector, in order, by reversing it.
fn reversed(v: Vec<Cfg>) -> (rev: Vec<Cfg>)
    ensures
        rev@.len() == v@.len(),
        forall|j: int| 0 <= j < rev@.len() ==> #[trigger] rev@[j] == v@[v@.len() - 1 - j],
{
    let ghost items = v@;
    let mut rest = v;
    let mut rev: Vec<Cfg> = Vec::new();
    while rest.len() > 0
        invariant
            rest@.len() + rev@.len() == items.len(),
            rest@ == items.take(rest@.len() as int),
            forall|j: int| 0 <= j < rev@.len() ==> #[trigger] rev@[j] == items[items.len() - 1 - j],
        decreases rest@.len(),
    {
        let cfg = rest.pop().unwrap();
        rev.push(cfg);
        proof {
            assert(rest@ =~= items.take(rest@.len() as int));
        }
    }
    rev
}

/// Splices each sequence of `v` into its place.
fn splice_all(v: Vec<Cfg>) -> (flat: Vec<Cfg>)
    ensures
        flat@ == spliced(v@),
{
    let ghost p = v@;
    let mut rev = reversed(v);
    let mut flat: Vec<Cfg> = Vec::new();
    proof {
        assert(p.take(0) =~= Seq::<Cfg>::empty());
    }
    while rev.len() > 0
        invariant
            rev@.len() <= p.len(),
            forall|j: int| 0 <= j < rev@.len() ==> #[trigger] rev@[j] == p[p.len() - 1 - j],
            flat@ == spliced(p.take(p.len() - rev@.len())),
        decreases rev@.len(),
    {
        let ghost k = p.len() - rev@.len();
        let cfg = rev.pop().unwrap();
        proof {
            assert(cfg == p[k]);
            assert(p.take(k + 1).drop_last() =~= p.take(k));
            assert(p.take(k + 1).last() == p[k]);
        }
        match cfg {
            Cfg::Sequence(inner) => {
                let mut parts = inner.cfgs;
                flat.append(&mut parts);
            },
            other => {
                flat.push(other);
            },
        }
        proof {
            assert(flat@ =~= spliced(p.take(k + 1)));
        }
    }
    proof {
        assert(p.take(p.len() as int) =~= p);
    }
    flat
}

/// Splicing keeps every block below `n`.
proof fn lemma_spliced_below(p: Seq<Cfg>, n: nat)
    requires
        cfgs_below(p, n),
    ensures
        cfgs_below(spliced(p), n),
    decreases p.len(),
{
    if p.len() > 0 {
        lemma_spliced_below(p.drop_last(), n);
        let last = p.last();
        assert(cfg_below(p[p.len() - 1], n));
        let tail = match last {
            Cfg::Sequence(inner) => inner.spec_cfgs(),
            c => seq![c],
        };
        assert(cfgs_below(tail, n));
        let sp = spliced(p.drop_last());
        assert forall|k: int| 0 <= k < spliced(p).len() implies cfg_below(#[trigger] spliced(p)[k], n) by {
            assert(spliced(p) == sp + tail);
            if k < sp.len() {
                assert(spliced(p)[k] == sp[k]);
            } else {
                assert(spliced(p)[k] == tail[k - sp.len()]);
            }
        }
    }
}

impl Sequence {
    /// Concatenates adjacent blocks and flattens top-level sequences.
    pub fn flatten(&mut self, g: &mut Graph)
        requires
            old(g).wf(),
            cfgs_below(old(self).spec_cfgs(), old(g)@.len()),
        ensures
            final(g).wf(),
            final(g).extends(old(g)),
            final(g).spec_next_block() == old(g).spec_next_block(),
            final(g).spec_next_input() == old(g).spec_next_input(),
            cfgs_below(final(self).spec_cfgs(), final(g)@.len()),
            folded(final(self).spec_cfgs(), spliced(old(self).spec_cfgs()), final(g)@, false),
            no_joinable(final(self).spec_cfgs(), final(g).spec_copy_bound()),
    {
        let mut taken: Vec<Cfg> = Vec::new();
        std::mem::swap(&mut taken, &mut self.cfgs);
        let flat = splice_all(taken);
        proof {
            lemma_spliced_below(old(self).spec_cfgs(), g@.len());
        }
        let mut merged: Vec<Cfg> = Vec::new();
        add_all(&mut merged, flat, g);
        self.cfgs = merged;
    }
}

/// Whether some control-flow node of `s` is a sequence.
pub open spec fn has_sequence(s: Seq<Cfg>) -> bool {
    exists|k: int| 0 <= k < s.len() && (#[trigger] s[k]) is Sequence
}

/// The control-flow node that a sequence with the nodes `s` becomes when a
/// singleton is unwrapped.
pub open spec fn unwrapped(cfg: Cfg, s: Seq<Cfg>) -> bool {
    if s.len() == 1 {
        cfg == s[0]
    } else {
        cfg matches Cfg::Sequence(q) && q.spec_cfgs() == s
    }
}

/// Splicing a sequence with no nested sequences leaves it as it is.
proof fn lemma_spliced_flat(p: Seq<Cfg>)
    requires
        !has_sequence(p),
    ensures
        spliced(p) == p,
    decreases p.len(),
{
    if p.len() > 0 {
        assert(!has_sequence(p.drop_last())) by {
            if has_sequence(p.drop_last()) {
                let k = choose|k: int| 0 <= k < p.drop_last().len() && (#[trigger] p.drop_last()[k]) is Sequence;
                assert(p[k] is Sequence);
            }
        }
        lemma_spliced_flat(p.drop_last());
        assert(!(p[p.len() - 1] is Sequence));
        assert(p =~= p.drop_last() + seq![p.last()]);
    }
}

impl Sequence {
    /// Gets this sequence as a mutable slice.
    pub fn as_slice_mut(&mut self) -> (cfgs: &mut [Cfg])
        ensures
            cfgs@ == old(self).spec_cfgs(),
            final(self).spec_cfgs() == final(cfgs)@,
    {
        self.cfgs.as_mut_slice()
    }
}

impl Cfg {
    /// Flattens a 1-element `Sequence` into its element, after concatenating
    /// adjacent blocks and flattening top-level sequences in it.
    pub fn flatten(&mut self, g: &mut Graph)
        requires
            old(g).wf(),
            cfg_below(*old(self), old(g)@.len()),
        ensures
            final(g).wf(),
            final(g).extends(old(g)),
            final(g).spec_next_block() == old(g).spec_next_block(),
            final(g).spec_next_input() == old(g).spec_next_input(),
            cfg_below(*final(self), final(g)@.len()),
            match *old(self) {
                Cfg::Sequence(s) => exists|p: Seq<Cfg>|
                    folded(p, spliced(s.spec_cfgs()), final(g)@, false) && unwrapped(*final(self), p)
                        && no_joinable(p, final(g).spec_copy_bound()),
                other => *final(self) == other,
            },
    {
        let mut cur = Cfg::empty();
        std::mem::swap(&mut cur, self);
        match cur {
            Cfg::Sequence(mut seq) => {
                let ghost s0 = seq.spec_cfgs();
                seq.flatten(g);
                let ghost s1 = seq.spec_cfgs();
                *self = seq.into_cfg();
                proof {
                    assert(folded(s1, spliced(s0), g@, false) && unwrapped(*self, s1)
                        && no_joinable(s1, g.spec_copy_bound()));
                    if seq.spec_cfgs().len() == 1 {
                        assert(cfg_below(seq.spec_cfgs()[0], g@.len()));
                    }
                }
            },
            other => {
                *self = other;
                proof {
                    g.lemma_extends_refl();
                }
            },
        }
    }

    /// Constructs a sequence, which flattens any top-level sequences.
    pub fn seq(seq: Vec<Cfg>) -> (cfg: Self)
        ensures
            !has_sequence(seq@) ==> (cfg matches Cfg::Sequence(s) && s.spec_cfgs() == seq@),
            has_sequence(seq@) ==> unwrapped(cfg, spliced(seq@)),
    {
        let mut k: usize = 0;
        let mut nested = false;
        while k < seq.len()
            invariant
                k <= seq@.len(),
                nested == exists|j: int| 0 <= j < k && (#[trigger] seq@[j]) is Sequence,
            decreases seq@.len() - k,
        {
            if matches!(seq[k], Cfg::Sequence(_)) {
                nested = true;
            }
            k = k + 1;
        }
        if !nested {
            return Cfg::Sequence(Sequence { cfgs: seq });
        }
        let mut flattened = splice_all(seq);
        if flattened.len() == 1 {
            flattened.pop().unwrap()
        } else {
            Cfg::Sequence(Sequence { cfgs: flattened })
        }
    }

    /// Concatenates adjacent basic blocks in the sequence.
    pub fn concat_adjacent_blocks(&mut self, g: &mut Graph)
        requires
            old(g).wf(),
            cfg_below(*old(self), old(g)@.len()),
        ensures
            final(g).wf(),
            final(g).extends(old(g)),
            final(g).spec_next_block() == old(g).spec_next_block(),
            final(g).spec_next_input() == old(g).spec_next_input(),
            cfg_below(*final(self), final(g)@.len()),
            match *old(self) {
                Cfg::Sequence(s) => exists|p: Seq<Cfg>|
                    folded(p, s.spec_cfgs(), final(g)@, false) && unwrapped(*final(self), p)
                        && no_joinable(p, final(g).spec_copy_bound()),
                other => *final(self) == other,
            },
    {
        let mut cur = Cfg::empty();
        std::mem::swap(&mut cur, self);
        match cur {
            Cfg::Sequence(seq) => {
                proof {
                    assert forall|k: int| 0 <= k < seq.cfgs@.len() implies cfg_below(#[trigger] seq.cfgs@[k], g@.len()) by {
                        assert(cfg_below(seq.spec_cfgs()[k], g@.len()));
                    }
                }
                let ghost items = seq.cfgs@;
                let mut merged: Vec<Cfg> = Vec::new();
                add_all(&mut merged, seq.cfgs, g);
                let ghost p = merged@;
                if merged.len() == 1 {
                    *self = merged.pop().unwrap();
                    proof {
                        assert(cfg_below(p[0], g@.len()));
                    }
                } else {
                    *self = Cfg::Sequence(Sequence { cfgs: merged });
                }
                proof {
                    assert(folded(p, seq.spec_cfgs(), g@, false) && unwrapped(*self, p)
                        && no_joinable(p, g.spec_copy_bound()));
                }
            },
            other => {
                *self = other;
                proof {
                    g.lemma_extends_refl();
                }
            },
        }
    }
}

/// Whether the loops of `cfg` nest as the brackets `w` do: a block has none,
/// a loop is `[`, its body's brackets and `]`, and a sequence splits `w`
/// among its parts. The parser makes no conditionals.
pub open spec fn skeleton(cfg: Cfg, w: Seq<u8>) -> bool
    decreases cfg,
{
    match cfg {
        Cfg::Block(_) => w.len() == 0,
        Cfg::Loop(body) => w.len() >= 2 && w[0] == 91 && w[w.len() - 1] == 93 && skeleton(
            *body,
            w.subrange(1, w.len() - 1),
        ),
        Cfg::If(_) => false,
        Cfg::Sequence(s) => exists|cuts: Seq<int>|
            #![trigger cuts.len()]
            cuts.len() == s.spec_cfgs().len() + 1 && cuts[0] == 0 && cuts[cuts.len() - 1] == w.len()
                && (forall|i: int, j: int| 0 <= i <= j < cuts.len() ==> #[trigger] cuts[i] <= #[trigger] cuts[j])
                && (forall|k: int|
                0 <= k < s.spec_cfgs().len() ==> skeleton(
                    #[trigger] s.spec_cfgs()[k],
                    w.subrange(cuts[k], cuts[k + 1]),
                )),
    }
}

} // verus!
