//! E-graph types.

use vstd::prelude::*;

use hashbrown::{DefaultHashBuilder, HashTable};
use std::hash::BuildHasher;

use crate::node::{BlockId, InputId, Node};

verus! {

/// The table that maps nodes to their indices for value numbering, with the
/// hash builder that hashes every node it holds. Its contents are known only
/// through `table_map`.
#[verifier::external_body]
pub struct NodeTable {
    table: HashTable<(usize, u64)>,
    hasher: DefaultHashBuilder,
}

/// Each index that a `NodeTable` holds, with the node it was inserted under.
pub uninterp spec fn table_map(t: NodeTable) -> Map<usize, Node>;

/// Creates an empty table with `HashTable::new` and a hash builder with
/// `DefaultHashBuilder::default`. The table holds no items.
#[verifier::external_body]
fn table_new() -> (t: NodeTable)
    ensures
        table_map(t) =~= Map::empty(),
{
    NodeTable { table: HashTable::new(), hasher: DefaultHashBuilder::default() }
}

/// Looks up an index with `HashTable::find`, under the hash that the table's
/// own builder gives `node` by `BuildHasher::hash_one`. Every item was
/// inserted under the hash that this builder gave its node, and the derived
/// `Hash` of equal nodes is equal, so an item whose node equals `node` lies
/// under the same hash, and `find` returns an item under that hash that
/// passes the equality test. The test handed to it is `entry_matches`, which
/// compares the node recorded in `nodes` at the item's index; the
/// precondition says that these are the nodes the items were inserted under.
/// So an index comes back exactly when some item's node equals `node`.
#[verifier::external_body]
fn table_find(t: &NodeTable, nodes: &Vec<NodeEntry>, node: &Node) -> (r: Option<usize>)
    requires
        forall|i: usize| #[trigger] table_map(*t).dom().contains(i)
            ==> (i as int) < nodes@.len() && nodes@[i as int].node == table_map(*t)[i],
    ensures
        r matches Some(i) ==> table_map(*t).dom().contains(i) && table_map(*t)[i] == *node,
        r is None ==> forall|i: usize| #[trigger] table_map(*t).dom().contains(i)
            ==> table_map(*t)[i] != *node,
{
    let hash = t.hasher.hash_one(node);
    match t.table.find(hash, |&(i, _)| entry_matches(nodes, i, node)) {
        Some(&(i, _)) => Some(i),
        None => None,
    }
}

/// Inserts an index with `HashTable::insert_unique`, under the hash that the
/// table's builder gives `node`; the item records that hash, which the
/// rehashing function hands back. Every item the table held stays, and the
/// new index now maps to `node`.
#[verifier::external_body]
fn table_insert(t: &mut NodeTable, index: usize, node: &Node)
    requires
        !table_map(*old(t)).dom().contains(index),
    ensures
        table_map(*final(t)) =~= table_map(*old(t)).insert(index, *node),
{
    let hash = t.hasher.hash_one(node);
    t.table.insert_unique(hash, (index, hash), |&(_, h)| h);
}

/// Tests whether the entry at `index` exists and holds `node`.
fn entry_matches(nodes: &Vec<NodeEntry>, index: usize, node: &Node) -> (r: bool)
    ensures
        r == ((index as int) < nodes@.len() && nodes@[index as int].node == *node),
{
    index < nodes.len() && nodes[index].node == *node
}

/// An e-graph. Structurally identical nodes receive the same ID. Semantically
/// equivalent nodes are in the same e-class and considered interchangeable.
/// Rather than mutating nodes, fresh nodes are inserted and unioned with the
/// old using [`NodeId::replace`].
pub struct Graph {
    /// Deduplicated nodes, identified by `NodeId`.
    nodes: Vec<NodeEntry>,
    /// Map from node to node index for value numbering.
    node_indices: NodeTable,
    /// E-classes, identified by `EclassId`.
    eclasses: Vec<EclassEntry>,
    /// The ID of the next basic block.
    next_block: BlockId,
    /// The ID of the next unique input.
    next_input: InputId,
    /// The optimization pass which is currently executing.
    pass: Pass,
    /// A bound on the magnitude of the offsets of the `Copy` nodes.
    copy_bound: u64,
    /// The number of `Union` links from each e-class entry to its root.
    depth: Ghost<Seq<nat>>,
}

/// A node entry in the `Graph`, which knows its e-class and the pass which
/// created it. Nodes are not modified after insertion.
#[derive(Clone, Copy)]
pub struct NodeEntry {
    node: Node,
    eclass: Option<EclassId>,
    creator: Pass,
}

/// The value-numbered ID of a node in an e-graph: its 0-based index.
#[derive(Clone, Copy, Debug, PartialEq, Eq, Hash, Structural)]
pub struct NodeId(pub usize);

/// A recursive reference to a node in an e-graph.
#[derive(Clone, Copy)]
pub struct NodeRef<'g> {
    id: NodeId,
    graph: &'g Graph,
}

/// An equivalence class of nodes, i.e., a set of nodes, which are equivalent
/// and can be used interchangeably. One node is selected as the canonical
/// representation of the e-class.
pub struct Eclass {
    canon: NodeId,
    nodes: Vec<NodeId>,
}

/// An e-class entry.
enum EclassEntry {
    /// The data for the e-class.
    Eclass(Eclass),
    /// This e-class has been unioned with another and now forwards to that
    /// e-class. A chain of `Union` always ends with `Eclass`.
    Union(EclassId),
}

/// The ID of an e-class in an e-graph: its 0-based index. An e-class can
/// have multiple IDs.
#[derive(Clone, Copy, Debug, PartialEq, Eq, Structural)]
pub struct EclassId(pub usize);

/// An optimization pass.
#[derive(Clone, Copy, Debug, PartialEq, Eq, Structural)]
pub enum Pass {
    /// Parsing
    Parse,
    /// Add-loop to closed form multiply transformation
    AddLoopToMul,
    /// Loop quasi-invariant code motion through peeling
    QuasiInvariantPeel,
    /// Constant copy propagation.
    CopyConst,
    /// An unknown pass.
    Unknown,
}

/// Whether a `Copy` node's offset lies within `-bound - 1..=bound`.
pub open spec fn copy_within(node: Node, bound: int) -> bool {
    match node {
        Node::Copy(o, _) => -bound - 1 <= o.0 <= bound,
        _ => true,
    }
}

/// The magnitude of a `Copy` node's offset, as the copy bound counts it, or
/// 0 for any other node.
pub open spec fn copy_magnitude(node: Node) -> int {
    match node {
        Node::Copy(o, _) => if o.0 < 0 {
            if o.0 == i64::MIN {
                i64::MAX as int
            } else {
                -o.0
            }
        } else {
            o.0 as int
        },
        _ => 0,
    }
}

/// The largest copy magnitude among `nodes`, or 0 when there is none.
pub open spec fn copy_bound_of(nodes: Seq<Node>) -> int
    decreases nodes.len(),
{
    if nodes.len() == 0 {
        0
    } else {
        let b = copy_bound_of(nodes.drop_last());
        let m = copy_magnitude(nodes.last());
        if m > b {
            m
        } else {
            b
        }
    }
}

/// The copy bound of a prefix of `nodes` is at most that of `nodes`.
pub proof fn lemma_copy_bound_prefix(a: Seq<Node>, b: Seq<Node>)
    requires
        a.len() <= b.len(),
        b.take(a.len() as int) == a,
    ensures
        copy_bound_of(a) <= copy_bound_of(b),
    decreases b.len(),
{
    if a.len() == b.len() {
        assert(a =~= b);
    } else {
        assert(b.drop_last().take(a.len() as int) =~= b.take(a.len() as int));
        lemma_copy_bound_prefix(a, b.drop_last());
    }
}

/// The nodes and ID that inserting `node` into `nodes` as it is gives: the
/// node's index when it is there already, else the nodes with it appended
/// and its new index.
pub open spec fn after_insert(nodes: Seq<Node>, node: Node) -> (Seq<Node>, NodeId) {
    if nodes.contains(node) {
        (nodes, NodeId(nodes.index_of(node) as usize))
    } else {
        (nodes.push(node), NodeId(nodes.len() as usize))
    }
}

/// Whether the operands of a node identify nodes below index `i`.
pub open spec fn children_below(node: Node, i: int) -> bool {
    match node {
        Node::Add(l, r) | Node::Mul(l, r) => l.0 < i && r.0 < i,
        _ => true,
    }
}

/// Each `Union` link leads to an entry one step closer to its root.
spec fn links_wf(ec: Seq<EclassEntry>, d: Seq<nat>) -> bool {
    &&& d.len() == ec.len()
    &&& forall|e: int|
        0 <= e < ec.len() ==> match #[trigger] ec[e] {
            EclassEntry::Eclass(_) => d[e] == 0,
            EclassEntry::Union(j) => j.0 < ec.len() && d[e] == d[j.0 as int] + 1,
        }
}

/// The data of each e-class names nodes below `n` and contains its canonical
/// node.
spec fn classes_wf(ec: Seq<EclassEntry>, n: nat) -> bool {
    forall|e: int|
        0 <= e < ec.len() ==> match #[trigger] ec[e] {
            EclassEntry::Eclass(c) => {
                &&& c.canon.0 < n
                &&& c.nodes@.contains(c.canon)
                &&& forall|k: int| 0 <= k < c.nodes@.len() ==> (#[trigger] c.nodes@[k]).0 < n
            },
            EclassEntry::Union(_) => true,
        }
}

/// Follows `Union` links from `e` to the e-class entry that holds data.
spec fn root_in(eclasses: Seq<EclassEntry>, depth: Seq<nat>, e: int) -> int
    decreases depth[e],
{
    if 0 <= e < eclasses.len() {
        match eclasses[e] {
            EclassEntry::Eclass(_) => e,
            EclassEntry::Union(j) => if 0 <= j.0 < eclasses.len() && depth[j.0 as int] < depth[e] {
                root_in(eclasses, depth, j.0 as int)
            } else {
                e
            },
        }
    } else {
        e
    }
}

/// The root of an entry in range is an entry in range that holds data.
proof fn lemma_root_in(ec: Seq<EclassEntry>, d: Seq<nat>, e: int)
    requires
        links_wf(ec, d),
        0 <= e < ec.len(),
    ensures
        0 <= root_in(ec, d, e) < ec.len(),
        ec[root_in(ec, d, e)] is Eclass,
        ec[e] matches EclassEntry::Union(j) ==> root_in(ec, d, e) == root_in(ec, d, j.0 as int),
    decreases d[e],
{
    if let EclassEntry::Union(j) = ec[e] {
        lemma_root_in(ec, d, j.0 as int);
    }
}

/// The depths after the root entry `r1` is linked to the root entry `r2`.
spec fn depth_after_union(ec: Seq<EclassEntry>, d: Seq<nat>, r1: int) -> Seq<nat> {
    Seq::new(d.len(), |x: int| if root_in(ec, d, x) == r1 { d[x] + 1 } else { d[x] })
}

/// Linking root `r1` to root `r2` sends every entry under `r1` to `r2` and
/// leaves the others.
proof fn lemma_root_after_union(
    ec: Seq<EclassEntry>,
    d: Seq<nat>,
    ec2: Seq<EclassEntry>,
    r1: int,
    r2: int,
    c: Eclass,
    e: int,
)
    requires
        links_wf(ec, d),
        0 <= r1 < ec.len(),
        0 <= r2 < ec.len(),
        r1 != r2,
        r2 <= usize::MAX,
        ec[r1] is Eclass,
        ec[r2] is Eclass,
        ec2 == ec.update(r1, EclassEntry::Union(EclassId(r2 as usize))).update(r2, EclassEntry::Eclass(c)),
        0 <= e < ec.len(),
    ensures
        root_in(ec2, depth_after_union(ec, d, r1), e) == (if root_in(ec, d, e) == r1 {
            r2
        } else {
            root_in(ec, d, e)
        }),
    decreases d[e],
{
    let d2 = depth_after_union(ec, d, r1);
    lemma_root_in(ec, d, e);
    if e == r1 {
        assert(root_in(ec, d, r2) == r2);
        assert(d2[r2] == d[r2]);
        assert(root_in(ec2, d2, r2) == r2);
    } else if e == r2 {
    } else {
        match ec[e] {
            EclassEntry::Eclass(_) => {},
            EclassEntry::Union(j) => {
                lemma_root_in(ec, d, j.0 as int);
                lemma_root_after_union(ec, d, ec2, r1, r2, c, j.0 as int);
            },
        }
    }
}

/// Linking root `r1` to root `r2` keeps the links well-formed.
proof fn lemma_links_after_union(
    ec: Seq<EclassEntry>,
    d: Seq<nat>,
    ec2: Seq<EclassEntry>,
    r1: int,
    r2: int,
    c: Eclass,
)
    requires
        links_wf(ec, d),
        0 <= r1 < ec.len(),
        0 <= r2 < ec.len(),
        r1 != r2,
        r2 <= usize::MAX,
        ec[r1] is Eclass,
        ec[r2] is Eclass,
        ec2 == ec.update(r1, EclassEntry::Union(EclassId(r2 as usize))).update(r2, EclassEntry::Eclass(c)),
    ensures
        links_wf(ec2, depth_after_union(ec, d, r1)),
{
    let d2 = depth_after_union(ec, d, r1);
    assert forall|e: int| 0 <= e < ec2.len() implies match #[trigger] ec2[e] {
        EclassEntry::Eclass(_) => d2[e] == 0,
        EclassEntry::Union(j) => j.0 < ec2.len() && d2[e] == d2[j.0 as int] + 1,
    } by {
        lemma_root_in(ec, d, e);
        lemma_root_in(ec, d, r2);
        if e != r1 && e != r2 {
            if let EclassEntry::Union(j) = ec[e] {
                lemma_root_in(ec, d, j.0 as int);
            }
        }
    }
}

/// The table holds exactly the indices of `nodes`, each under its node, and
/// no node occurs twice.
spec fn table_wf(t: NodeTable, nodes: Seq<NodeEntry>) -> bool {
    &&& forall|i: usize| #[trigger] table_map(t).dom().contains(i) <==> (i as int) < nodes.len()
    &&& forall|i: usize| #[trigger] table_map(t).dom().contains(i)
        ==> table_map(t)[i] == nodes[i as int].node
    &&& forall|i: int, j: int| 0 <= i < j < nodes.len() ==> #[trigger] nodes[i].node != #[trigger] nodes[j].node
}

/// Changing anything but the nodes of the entries keeps the table matched.
proof fn lemma_table_wf_nodes(t: NodeTable, a: Seq<NodeEntry>, b: Seq<NodeEntry>)
    requires
        table_wf(t, a),
        a.len() == b.len(),
        forall|i: int| 0 <= i < a.len() ==> #[trigger] b[i].node == a[i].node,
    ensures
        table_wf(t, b),
{
    assert forall|i: usize| #[trigger] table_map(t).dom().contains(i)
        implies table_map(t)[i] == b[i as int].node by {
        assert(b[i as int].node == a[i as int].node);
    }
    assert forall|i: int, j: int| 0 <= i < j < b.len() implies #[trigger] b[i].node != #[trigger] b[j].node by {
        assert(b[i].node == a[i].node);
        assert(b[j].node == a[j].node);
    }
}

impl View for Graph {
    type V = Seq<Node>;

    /// The nodes of the graph, indexed by `NodeId`.
    closed spec fn view(&self) -> Seq<Node> {
        self.nodes@.map_values(|e: NodeEntry| e.node)
    }
}

impl Graph {
    /// The ID that the next basic block will receive.
    pub closed spec fn spec_next_block(&self) -> BlockId {
        self.next_block
    }

    /// The ID that the next input will receive.
    pub closed spec fn spec_next_input(&self) -> InputId {
        self.next_input
    }

    /// The pass that is recorded in new nodes.
    pub closed spec fn spec_pass(&self) -> Pass {
        self.pass
    }

    /// The pass that created each node.
    pub closed spec fn creators(&self) -> Seq<Pass> {
        self.nodes@.map_values(|e: NodeEntry| e.creator)
    }

    /// The e-class entry that each node names, if any.
    pub closed spec fn eclass_links(&self) -> Seq<Option<EclassId>> {
        self.nodes@.map_values(|e: NodeEntry| e.eclass)
    }

    /// The number of e-class entries.
    pub closed spec fn spec_eclasses_len(&self) -> nat {
        self.eclasses@.len()
    }

    /// Follows `Union` links from `e` to the e-class entry that holds data.
    closed spec fn root_of(&self, e: int) -> int {
        root_in(self.eclasses@, self.depth@, e)
    }

    /// The canonical node of the e-class entry at `r`.
    closed spec fn class_canon(&self, r: int) -> NodeId {
        match self.eclasses@[r] {
            EclassEntry::Eclass(c) => c.canon,
            EclassEntry::Union(_) => NodeId(0),
        }
    }

    /// The nodes listed in the e-class entry at `r`.
    closed spec fn class_nodes(&self, r: int) -> Seq<NodeId> {
        match self.eclasses@[r] {
            EclassEntry::Eclass(c) => c.nodes@,
            EclassEntry::Union(_) => Seq::empty(),
        }
    }

    /// The root e-class entry of node `n`, or `None` for a singleton.
    pub closed spec fn class_root(&self, n: NodeId) -> Option<int> {
        match self.nodes@[n.0 as int].eclass {
            Some(e) => Some(self.root_of(e.0 as int)),
            None => None,
        }
    }

    /// Whether nodes `a` and `b` are in the same e-class.
    pub closed spec fn same_class(&self, a: NodeId, b: NodeId) -> bool {
        a == b || (self.class_root(a) is Some && self.class_root(a) == self.class_root(b))
    }

    /// The canonical node of the e-class of `n`.
    pub closed spec fn canonical(&self, n: NodeId) -> NodeId {
        match self.class_root(n) {
            Some(r) => self.class_canon(r),
            None => n,
        }
    }

    /// The well-formedness of the graph.
    pub closed spec fn wf(&self) -> bool {
        let n = self.nodes@.len();
        let m = self.eclasses@.len();
        &&& n <= usize::MAX
        &&& m <= usize::MAX
        &&& forall|i: int| 0 <= i < n ==> children_below(#[trigger] self.nodes@[i].node, i)
        &&& forall|i: int| 0 <= i < n ==> copy_within(#[trigger] self.nodes@[i].node, self.copy_bound as int)
        &&& self.copy_bound <= i64::MAX
        &&& self.copy_bound == copy_bound_of(self@)
        &&& table_wf(self.node_indices, self.nodes@)
        &&& forall|i: int|
            0 <= i < n ==> (#[trigger] self.nodes@[i].eclass matches Some(e) ==> e.0 < m)
        &&& links_wf(self.eclasses@, self.depth@)
        &&& classes_wf(self.eclasses@, n)
        &&& forall|i: int, e: int|
            0 <= i < n && 0 <= e < m && (#[trigger] self.eclasses@[e]) is Eclass ==> ((
            #[trigger] self.nodes@[i].eclass matches Some(f) && self.root_of(f.0 as int) == e)
                <==> self.class_nodes(e).contains(NodeId(i as usize)))
    }
}


impl Graph {
    /// Whether `self` is `old` with nodes appended: the old nodes, their
    /// creators and their e-classes are unchanged, and the new nodes are in
    /// singleton e-classes.
    pub closed spec fn extends(&self, old: &Graph) -> bool {
        &&& old@.len() <= self@.len()
        &&& self@.take(old@.len() as int) == old@
        &&& self.creators().take(old@.len() as int) == old.creators()
        &&& forall|a: NodeId, b: NodeId|
            a.0 < old@.len() && b.0 < old@.len() ==> (self.same_class(a, b) <==> old.same_class(a, b))
        &&& forall|a: NodeId| a.0 < old@.len() ==> self.canonical(a) == old.canonical(a)
        &&& forall|a: NodeId| old@.len() <= a.0 < self@.len() ==> self.canonical(a) == a
        &&& forall|a: NodeId, b: NodeId|
            a.0 < self@.len() && b.0 < self@.len() && old@.len() <= a.0 ==> (self.same_class(a, b)
                <==> a == b)
        &&& self.spec_pass() == old.spec_pass()
    }

    /// Constructs a new, empty e-graph.
    pub fn new() -> (g: Self)
        ensures
            g.wf(),
            g@ =~= Seq::<Node>::empty(),
            g.creators() =~= Seq::<Pass>::empty(),
            g.eclass_links() =~= Seq::<Option<EclassId>>::empty(),
            g.spec_eclasses_len() == 0,
            g.spec_copy_bound() == 0,
            g.spec_next_block() == BlockId(0),
            g.spec_next_input() == InputId(0),
            g.spec_pass() == Pass::Unknown,
    {
        Graph {
            nodes: Vec::new(),
            node_indices: table_new(),
            eclasses: Vec::new(),
            next_block: BlockId(0),
            next_input: InputId(0),
            pass: Pass::Unknown,
            copy_bound: 0,
            depth: Ghost(Seq::empty()),
        }
    }

    /// Inserts this node into the e-graph and places it in a singleton e-class.
    /// Structurally equivalent nodes are deduplicated and receive the same
    /// `NodeId`.
    pub fn insert(&mut self, node: Node) -> (id: NodeId)
        requires
            old(self).wf(),
            children_below(node, old(self)@.len() as int),
        ensures
            final(self).wf(),
            final(self).extends(old(self)),
            (id.0 as int) < final(self)@.len(),
            final(self)@[id.0 as int] == node,
            final(self)@.len() == old(self)@.len() || (final(self)@.len() == old(self)@.len() + 1
                && id.0 == old(self)@.len() && final(self).creators().last() == old(self).spec_pass()),
            final(self).spec_next_block() == old(self).spec_next_block(),
            final(self).spec_next_input() == old(self).spec_next_input(),
            forall|i: int| 0 <= i < final(self)@.len() && final(self)@[i] == node ==> i == id.0,
            (final(self)@, id) == after_insert(old(self)@, node),
            old(self)@.contains(node) ==> *final(self) == *old(self),
            !old(self)@.contains(node) ==> {
                &&& id.0 == old(self)@.len()
                &&& final(self)@ == old(self)@.push(node)
                &&& final(self).creators() == old(self).creators().push(old(self).spec_pass())
                &&& final(self).eclass_links() == old(self).eclass_links().push(None)
                &&& final(self).spec_eclasses_len() == old(self).spec_eclasses_len()
            },
    {
        if let Some(index) = table_find(&self.node_indices, &self.nodes, &node) {
            proof {
                assert(self.nodes@[index as int].node == node);
                assert(self@[index as int] == node);
                assert(self@.contains(node));
                assert forall|i: int| 0 <= i < self@.len() && self@[i] == node implies i == index by {
                    assert(self@[i] == self.nodes@[i].node);
                    if i < index {
                        assert(self.nodes@[i].node != self.nodes@[index as int].node);
                    } else if i > index {
                        assert(self.nodes@[index as int].node != self.nodes@[i].node);
                    }
                }
                assert(self@.take(self@.len() as int) =~= self@);
                assert(self.creators().take(self@.len() as int) =~= self.creators());
                let j = self@.index_of(node);
                assert(0 <= j < self@.len() && self@[j] == node);
                assert(j == index);
            }
            return NodeId(index);
        }
        proof {
            if self@.contains(node) {
                let j = choose|j: int| 0 <= j < self@.len() && self@[j] == node;
                assert(table_map(self.node_indices).dom().contains(j as usize));
                assert(self.nodes@[j].node == node);
            }
        }
        let ghost old_g = *self;
        let index = self.nodes.len();
        if let Node::Copy(o, _) = node {
            let m: u64 = if o.0 < 0 {
                if o.0 == i64::MIN { i64::MAX as u64 } else { (-o.0) as u64 }
            } else {
                o.0 as u64
            };
            if m > self.copy_bound {
                self.copy_bound = m;
            }
        }
        proof {
            assert(old_g@.push(node).drop_last() =~= old_g@);
            assert(!table_map(self.node_indices).dom().contains(index));
        }
        self.nodes.push(NodeEntry { node, eclass: None, creator: self.pass });
        // A vector's length is a `usize`, so the pushed vector still fits.
        let count = self.nodes.len();
        proof {
            assert(count == index + 1);
        }
        table_insert(&mut self.node_indices, index, &node);
        proof {
            assert(self@ =~= old_g@.push(node));
            assert(self.creators() =~= old_g.creators().push(old_g.pass));
            assert(self.eclass_links() =~= old_g.eclass_links().push(None));
            assert forall|i: usize| #[trigger] table_map(self.node_indices).dom().contains(i)
                implies table_map(self.node_indices)[i] == self.nodes@[i as int].node by {
                if i != index {
                    assert(table_map(old_g.node_indices).dom().contains(i));
                }
            }
            assert forall|i: int, j: int| 0 <= i < j < self.nodes@.len()
                implies #[trigger] self.nodes@[i].node != #[trigger] self.nodes@[j].node by {
                if j == index {
                    assert(old_g@[i] == old_g.nodes@[i].node);
                    assert(!old_g@.contains(node));
                } else {
                    assert(self.nodes@[i] == old_g.nodes@[i]);
                    assert(self.nodes@[j] == old_g.nodes@[j]);
                }
            }
            assert forall|i: int| 0 <= i < self@.len() && self@[i] == node implies i == index by {
                if i < index {
                    assert(old_g@[i] == old_g.nodes@[i].node);
                    assert(!old_g@.contains(node));
                }
            }
            assert(self@.take(old_g@.len() as int) =~= old_g@);
            assert(self.creators().take(old_g@.len() as int) =~= old_g.creators());
            assert forall|a: NodeId| a.0 < old_g@.len() implies self.class_root(a) == old_g.class_root(a) by {
                assert(self.nodes@[a.0 as int] == old_g.nodes@[a.0 as int]);
            }
            assert forall|i: int, e: int|
                0 <= i < self.nodes@.len() && 0 <= e < self.eclasses@.len()
                    && (#[trigger] self.eclasses@[e]) is Eclass implies ((
                #[trigger] self.nodes@[i].eclass matches Some(f) && self.root_of(f.0 as int) == e)
                    <==> self.class_nodes(e).contains(NodeId(i as usize))) by {
                if i == index {
                    if self.class_nodes(e).contains(NodeId(i as usize)) {
                        let k = choose|k: int| 0 <= k < self.class_nodes(e).len()
                            && self.class_nodes(e)[k] == NodeId(i as usize);
                        assert(old_g.eclasses@[e] == self.eclasses@[e]);
                    }
                } else {
                    assert(self.nodes@[i] == old_g.nodes@[i]);
                }
            }
        }
        NodeId(index)
    }
}

impl Graph {
    /// Follows the links from an e-class ID to the ID of its root e-class.
    fn eclass_root(&self, eid: EclassId) -> (r: EclassId)
        requires
            self.wf(),
            eid.0 < self.eclasses@.len(),
        ensures
            r.0 as int == self.root_of(eid.0 as int),
            r.0 < self.eclasses@.len(),
            self.eclasses@[r.0 as int] is Eclass,
    {
        proof {
            lemma_root_in(self.eclasses@, self.depth@, eid.0 as int);
        }
        let mut e = eid;
        loop
            invariant
                self.wf(),
                e.0 < self.eclasses@.len(),
                self.root_of(e.0 as int) == self.root_of(eid.0 as int),
            decreases self.depth@[e.0 as int],
        {
            proof {
                lemma_root_in(self.eclasses@, self.depth@, e.0 as int);
            }
            match &self.eclasses[e.0 as usize] {
                EclassEntry::Eclass(_) => return e,
                EclassEntry::Union(e2) => {
                    e = *e2;
                },
            }
        }
    }

    /// Gets a reference to the root e-class for this ID.
    fn eclass(&self, eid: EclassId) -> (r: (EclassId, &Eclass))
        requires
            self.wf(),
            eid.0 < self.eclasses@.len(),
        ensures
            r.0.0 as int == self.root_of(eid.0 as int),
            r.1.canon == self.class_canon(r.0.0 as int),
            r.1.nodes@ == self.class_nodes(r.0.0 as int),
    {
        let root = self.eclass_root(eid);
        match &self.eclasses[root.0 as usize] {
            EclassEntry::Eclass(eclass) => (root, eclass),
            EclassEntry::Union(_) => vstd::pervasive::unreached(),
        }
    }

    /// Points the e-class link of node `n` at entry `e`.
    fn set_link(&mut self, n: NodeId, e: EclassId)
        requires
            (n.0 as int) < old(self).nodes@.len(),
        ensures
            final(self).nodes@ == old(self).nodes@.update(
                n.0 as int,
                NodeEntry { eclass: Some(e), ..old(self).nodes@[n.0 as int] },
            ),
            final(self).eclasses@ == old(self).eclasses@,
            final(self).depth@ == old(self).depth@,
            final(self).next_block == old(self).next_block,
            final(self).next_input == old(self).next_input,
            final(self).pass == old(self).pass,
            final(self).copy_bound == old(self).copy_bound,
            final(self).node_indices == old(self).node_indices,
    {
        let mut entry = self.nodes[n.0 as usize];
        entry.eclass = Some(e);
        self.nodes.set(n.0 as usize, entry);
    }

    /// Replaces the e-class entry at `i` and returns the old one.
    fn swap_entry(&mut self, i: EclassId, entry: EclassEntry) -> (old_entry: EclassEntry)
        requires
            (i.0 as int) < old(self).eclasses@.len(),
        ensures
            old_entry == old(self).eclasses@[i.0 as int],
            final(self).eclasses@ == old(self).eclasses@.update(i.0 as int, entry),
            final(self).nodes@ == old(self).nodes@,
            final(self).depth@ == old(self).depth@,
            final(self).next_block == old(self).next_block,
            final(self).next_input == old(self).next_input,
            final(self).pass == old(self).pass,
            final(self).copy_bound == old(self).copy_bound,
            final(self).node_indices == old(self).node_indices,
    {
        self.eclasses.push(entry);
        let old_entry = self.eclasses.swap_remove(i.0 as usize);
        proof {
            assert(self.eclasses@ =~= old(self).eclasses@.update(i.0 as int, entry));
        }
        old_entry
    }
}

impl Graph {
    /// The e-classes after `origin` and `canon` are unified: two nodes are in
    /// the same class when they were, or when one was with `origin` and the
    /// other with `canon`.
    pub open spec fn unified(&self, old: &Graph, origin: NodeId, canon: NodeId) -> bool {
        &&& forall|a: NodeId, b: NodeId|
            a.0 < self@.len() && b.0 < self@.len() ==> (self.same_class(a, b) <==> (old.same_class(a, b)
                || (old.same_class(a, origin) && old.same_class(b, canon)) || (old.same_class(
                a,
                canon,
            ) && old.same_class(b, origin))))
        &&& forall|a: NodeId| a.0 < self@.len() && self.same_class(a, canon) ==> self.canonical(a) == canon
        &&& forall|a: NodeId|
            a.0 < self@.len() && !self.same_class(a, canon) ==> self.canonical(a) == old.canonical(a)
    }

    /// The e-class entries after `origin` and `canon` are unified: both nodes
    /// name one e-class, whose canonical node is `canon`. Two singletons form
    /// a new e-class listing `canon` and `origin`; a singleton is added at
    /// the end of the other node's e-class; two different e-classes are
    /// merged, the longer list first; one e-class keeps its list.
    pub open spec fn relinked_classes(&self, old: &Graph, origin: NodeId, canon: NodeId) -> bool {
        let l1 = old.eclass_links()[origin.0 as int];
        let l2 = old.eclass_links()[canon.0 as int];
        let e = self.eclass_links()[origin.0 as int];
        &&& e is Some
        &&& self.eclass_links()[canon.0 as int] == e
        &&& self.eclass_canon(e->0) == canon
        &&& if l1 is None && l2 is None {
            &&& self.spec_eclasses_len() == old.spec_eclasses_len() + 1
            &&& e == Some(EclassId(old.spec_eclasses_len() as usize))
            &&& self.eclass_members(e->0) == seq![canon, origin]
        } else {
            &&& self.spec_eclasses_len() == old.spec_eclasses_len()
            &&& self.eclass_members(e->0) == if l2 is None {
                old.eclass_members(l1->0).push(canon)
            } else if l1 is None {
                old.eclass_members(l2->0).push(origin)
            } else if old.same_class(origin, canon) {
                old.eclass_members(l2->0)
            } else if old.eclass_members(l2->0).len() >= old.eclass_members(l1->0).len() {
                old.eclass_members(l2->0) + old.eclass_members(l1->0)
            } else {
                old.eclass_members(l1->0) + old.eclass_members(l2->0)
            }
        }
    }

    /// Unifies `origin` and `canon` into the same e-class and makes `canon` the
    /// canonical node.
    fn replace(&mut self, origin: NodeId, canon: NodeId)
        requires
            old(self).wf(),
            (origin.0 as int) < old(self)@.len(),
            (canon.0 as int) < old(self)@.len(),
        ensures
            final(self).wf(),
            final(self)@ == old(self)@,
            final(self).creators() == old(self).creators(),
            final(self).spec_next_block() == old(self).spec_next_block(),
            final(self).spec_next_input() == old(self).spec_next_input(),
            final(self).spec_pass() == old(self).spec_pass(),
            final(self).unified(old(self), origin, canon),
            final(self).relinked_classes(old(self), origin, canon),
            forall|i: int|
                0 <= i < old(self)@.len() && i != origin.0 && i != canon.0
                    ==> #[trigger] final(self).eclass_links()[i] == old(self).eclass_links()[i],
    {
        let ghost g0 = *self;
        let eid1 = self.nodes[origin.0 as usize].eclass;
        let eid2 = self.nodes[canon.0 as usize].eclass;
        match (eid1, eid2) {
            (Some(eid1), Some(eid2)) => {
                let r1 = self.eclass_root(eid1);
                let r2 = self.eclass_root(eid2);
                self.set_link(origin, r2);
                self.set_link(canon, r2);
                if r1.0 == r2.0 {
                    let entry = self.swap_entry(r2, EclassEntry::Union(r2));
                    let EclassEntry::Eclass(mut eclass2) = entry else { vstd::pervasive::unreached() };
                    eclass2.canon = canon;
                    self.swap_entry(r2, EclassEntry::Eclass(eclass2));
                    proof {
                        self.lemma_same_root_relink(&g0, origin, canon, r2.0 as int);
                        assert(self.root_of(r2.0 as int) == r2.0);
                        assert(g0.same_class(origin, canon));
                    }
                    return;
                }
                let entry1 = self.swap_entry(r1, EclassEntry::Union(r2));
                let entry2 = self.swap_entry(r2, EclassEntry::Union(r2));
                let EclassEntry::Eclass(mut eclass1) = entry1 else { vstd::pervasive::unreached() };
                let EclassEntry::Eclass(mut eclass2) = entry2 else { vstd::pervasive::unreached() };
                let ghost nodes1 = eclass1.nodes@;
                let ghost nodes2 = eclass2.nodes@;
                eclass2.canon = canon;
                if eclass2.nodes.len() >= eclass1.nodes.len() {
                    eclass2.nodes.append(&mut eclass1.nodes);
                } else {
                    eclass1.nodes.append(&mut eclass2.nodes);
                    eclass2.nodes = eclass1.nodes;
                }
                let ghost merged = eclass2.nodes@;
                proof {
                    assert(merged == if nodes2.len() >= nodes1.len() { nodes2 + nodes1 } else { nodes1 + nodes2 });
                }
                self.swap_entry(r2, EclassEntry::Eclass(eclass2));
                proof {
                    let ec0 = g0.eclasses@;
                    let d0 = g0.depth@;
                    self.depth = Ghost(depth_after_union(ec0, d0, r1.0 as int));
                    assert(self.eclasses@ =~= ec0.update(r1.0 as int, EclassEntry::Union(r2)).update(
                        r2.0 as int,
                        self.eclasses@[r2.0 as int],
                    ));
                    assert(self.eclasses@[r2.0 as int] matches EclassEntry::Eclass(c) && c.canon == canon
                        && c.nodes@ == merged);
                    assert forall|k: NodeId| merged.contains(k) <==> (nodes1.contains(k) || nodes2.contains(k)) by {
                        if merged.contains(k) {
                            let j = choose|j: int| 0 <= j < merged.len() && merged[j] == k;
                            if merged =~= nodes2 + nodes1 {
                                if j < nodes2.len() {
                                    assert(nodes2[j] == k);
                                } else {
                                    assert(nodes1[j - nodes2.len()] == k);
                                }
                            } else {
                                assert(merged =~= nodes1 + nodes2);
                                if j < nodes1.len() {
                                    assert(nodes1[j] == k);
                                } else {
                                    assert(nodes2[j - nodes1.len()] == k);
                                }
                            }
                        }
                        if nodes1.contains(k) {
                            let j = choose|j: int| 0 <= j < nodes1.len() && nodes1[j] == k;
                            if merged =~= nodes2 + nodes1 {
                                assert(merged[nodes2.len() + j] == k);
                            } else {
                                assert(merged[j] == k);
                            }
                        }
                        if nodes2.contains(k) {
                            let j = choose|j: int| 0 <= j < nodes2.len() && nodes2[j] == k;
                            if merged =~= nodes2 + nodes1 {
                                assert(merged[j] == k);
                            } else {
                                assert(merged[nodes1.len() + j] == k);
                            }
                        }
                    }
                    self.lemma_merge(&g0, origin, canon, r1.0 as int, r2.0 as int, nodes1, nodes2);
                    assert(self.root_of(r2.0 as int) == r2.0);
                    assert(origin != canon);
                    assert(!g0.same_class(origin, canon));
                }
            },
            (Some(eid), None) | (None, Some(eid)) => {
                let r = self.eclass_root(eid);
                self.set_link(origin, r);
                self.set_link(canon, r);
                let entry = self.swap_entry(r, EclassEntry::Union(r));
                let EclassEntry::Eclass(mut eclass) = entry else { vstd::pervasive::unreached() };
                let ghost old_nodes = eclass.nodes@;
                eclass.canon = canon;
                let added = if eid1.is_none() { origin } else { canon };
                eclass.nodes.push(added);
                self.swap_entry(r, EclassEntry::Eclass(eclass));
                proof {
                    self.lemma_join(&g0, origin, canon, r.0 as int, added, old_nodes);
                    assert(self.root_of(r.0 as int) == r.0);
                }
            },
            (None, None) => {
                let eid = EclassId(self.eclasses.len() as usize);
                let mut nodes = Vec::new();
                nodes.push(canon);
                nodes.push(origin);
                assert(nodes@ =~= seq![canon, origin]);
                self.eclasses.push(EclassEntry::Eclass(Eclass { canon, nodes }));
                // A vector's length is a `usize`, so the pushed vector still fits.
                let count = self.eclasses.len();
                proof {
                    assert(count == eid.0 + 1);
                }
                proof {
                    self.depth = Ghost(g0.depth@.push(0));
                }
                self.set_link(origin, eid);
                self.set_link(canon, eid);
                proof {
                    assert(self.eclasses@.take(g0.eclasses@.len() as int) =~= g0.eclasses@);
                    self.lemma_fresh_class(&g0, origin, canon);
                    assert(self.root_of(eid.0 as int) == eid.0);
                }
            },
        }
    }
}

/// The node entries `new` are `old` with the e-class links of `a` and `b`
/// pointed at `r`.
spec fn relinked(new: Seq<NodeEntry>, old: Seq<NodeEntry>, a: NodeId, b: NodeId, r: EclassId) -> bool {
    &&& new.len() == old.len()
    &&& forall|i: int|
        0 <= i < old.len() ==> #[trigger] new[i] == (if i == a.0 || i == b.0 {
            NodeEntry { eclass: Some(r), ..old[i] }
        } else {
            old[i]
        })
}

/// Relinking nodes to an e-class keeps the table matched.
proof fn lemma_table_relinked(t: NodeTable, new: Seq<NodeEntry>, old: Seq<NodeEntry>, a: NodeId, b: NodeId, r: EclassId)
    requires
        table_wf(t, old),
        relinked(new, old, a, b, r),
    ensures
        table_wf(t, new),
{
    assert forall|i: int| 0 <= i < old.len() implies #[trigger] new[i].node == old[i].node by {
        assert(new[i] == (if i == a.0 || i == b.0 {
            NodeEntry { eclass: Some(r), ..old[i] }
        } else {
            old[i]
        }));
    }
    lemma_table_wf_nodes(t, old, new);
}

impl Graph {
    /// The fields besides nodes and e-classes are those of `g0`.
    spec fn same_counters(&self, g0: &Graph) -> bool {
        &&& self.next_block == g0.next_block
        &&& self.next_input == g0.next_input
        &&& self.pass == g0.pass
        &&& self.copy_bound == g0.copy_bound
        &&& self.node_indices == g0.node_indices
    }

    proof fn lemma_same_root_relink(&self, g0: &Graph, origin: NodeId, canon: NodeId, r: int)
        requires
            g0.wf(),
            (origin.0 as int) < g0.nodes@.len(),
            (canon.0 as int) < g0.nodes@.len(),
            g0.class_root(origin) == Some(r),
            g0.class_root(canon) == Some(r),
            relinked(self.nodes@, g0.nodes@, origin, canon, EclassId(r as usize)),
            0 <= r < g0.eclasses@.len(),
            self.eclasses@.len() == g0.eclasses@.len(),
            forall|e: int| 0 <= e < g0.eclasses@.len() && e != r ==> self.eclasses@[e] == g0.eclasses@[e],
            self.eclasses@[r] matches EclassEntry::Eclass(c) && c.canon == canon && c.nodes@
                == g0.class_nodes(r),
            self.depth@ == g0.depth@,
            self.same_counters(g0),
        ensures
            self.wf(),
            self@ == g0@,
            self.creators() == g0.creators(),
            self.unified(g0, origin, canon),
    {
        lemma_table_relinked(g0.node_indices, self.nodes@, g0.nodes@, origin, canon, EclassId(r as usize));
        let n = g0.nodes@.len();
        let f = g0.nodes@[canon.0 as int].eclass.unwrap();
        lemma_root_in(g0.eclasses@, g0.depth@, f.0 as int);
        assert(g0.eclasses@[r] is Eclass);
        assert(links_wf(self.eclasses@, self.depth@)) by {
            assert forall|e: int| 0 <= e < self.eclasses@.len() implies match #[trigger] self.eclasses@[e] {
                EclassEntry::Eclass(_) => self.depth@[e] == 0,
                EclassEntry::Union(j) => j.0 < self.eclasses@.len() && self.depth@[e] == self.depth@[j.0 as int] + 1,
            } by {
                assert(match g0.eclasses@[e] {
                    EclassEntry::Eclass(_) => g0.depth@[e] == 0,
                    EclassEntry::Union(j) => j.0 < g0.eclasses@.len() && g0.depth@[e] == g0.depth@[j.0 as int] + 1,
                });
            }
        }
        assert(forall|e: int| 0 <= e < self.eclasses@.len() ==> root_in(self.eclasses@, self.depth@, e)
            == root_in(g0.eclasses@, g0.depth@, e)) by {
            assert forall|e: int| 0 <= e < self.eclasses@.len() implies root_in(self.eclasses@, self.depth@, e)
                == root_in(g0.eclasses@, g0.depth@, e) by {
                self.lemma_root_same_shape(g0, r, e);
            }
        }
        assert(self@ =~= g0@);
        assert(self.creators() =~= g0.creators());
        assert forall|a: NodeId| a.0 < n implies self.class_root(a) == g0.class_root(a) by {
            if a == origin || a == canon {
            } else {
                assert(self.nodes@[a.0 as int] == g0.nodes@[a.0 as int]);
                if let Some(f) = g0.nodes@[a.0 as int].eclass {
                    assert(f.0 < g0.eclasses@.len());
                }
            }
        }
        assert forall|e: int| 0 <= e < self.eclasses@.len() implies self.class_nodes(e) == g0.class_nodes(e) by {}
        assert(classes_wf(self.eclasses@, n)) by {
            assert forall|e: int| 0 <= e < self.eclasses@.len() implies match #[trigger] self.eclasses@[e] {
                EclassEntry::Eclass(c) => {
                    &&& c.canon.0 < n
                    &&& c.nodes@.contains(c.canon)
                    &&& forall|k: int| 0 <= k < c.nodes@.len() ==> (#[trigger] c.nodes@[k]).0 < n
                },
                EclassEntry::Union(_) => true,
            } by {
                assert(match g0.eclasses@[e] {
                    EclassEntry::Eclass(c) => {
                        &&& c.canon.0 < n
                        &&& c.nodes@.contains(c.canon)
                        &&& forall|k: int| 0 <= k < c.nodes@.len() ==> (#[trigger] c.nodes@[k]).0 < n
                    },
                    EclassEntry::Union(_) => true,
                });
                if e == r {
                    let f = g0.nodes@[canon.0 as int].eclass.unwrap();
                    assert(g0.nodes@[canon.0 as int].eclass matches Some(f) && g0.root_of(f.0 as int) == e);
                    assert(g0.class_nodes(e).contains(NodeId(canon.0 as usize)));
                }
            }
        }
        assert forall|i: int| 0 <= i < n implies children_below(#[trigger] self.nodes@[i].node, i) by {
            assert(children_below(g0.nodes@[i].node, i));
        }
        assert forall|i: int| 0 <= i < n implies copy_within(#[trigger] self.nodes@[i].node, self.copy_bound as int) by {
            assert(copy_within(g0.nodes@[i].node, g0.copy_bound as int));
        }
        assert forall|i: int| 0 <= i < n implies (#[trigger] self.nodes@[i].eclass matches Some(e) ==> e.0
            < self.eclasses@.len()) by {
            assert(g0.nodes@[i].eclass matches Some(e) ==> e.0 < g0.eclasses@.len());
        }
        assert forall|i: int, e: int|
            0 <= i < n && 0 <= e < self.eclasses@.len() && (#[trigger] self.eclasses@[e]) is Eclass implies ((
            #[trigger] self.nodes@[i].eclass matches Some(f) && self.root_of(f.0 as int) == e)
                <==> self.class_nodes(e).contains(NodeId(i as usize))) by {
            assert(g0.eclasses@[e] is Eclass);
            assert((g0.nodes@[i].eclass matches Some(f) && g0.root_of(f.0 as int) == e)
                <==> g0.class_nodes(e).contains(NodeId(i as usize)));
            assert(self.class_root(NodeId(i as usize)) == g0.class_root(NodeId(i as usize)));
        }
        assert forall|a: NodeId| a.0 < n && self.same_class(a, canon) implies self.canonical(a) == canon by {}
        assert forall|a: NodeId| a.0 < n && !self.same_class(a, canon) implies self.canonical(a) == g0.canonical(a) by {
            if let Some(q) = self.class_root(a) {
                lemma_root_in(g0.eclasses@, g0.depth@, g0.nodes@[a.0 as int].eclass.unwrap().0 as int);
            }
        }
    }

    /// Roots are unchanged when only the data of the root entry `r` changes.
    proof fn lemma_root_same_shape(&self, g0: &Graph, r: int, e: int)
        requires
            links_wf(g0.eclasses@, g0.depth@),
            0 <= r < g0.eclasses@.len(),
            g0.eclasses@[r] is Eclass,
            self.eclasses@.len() == g0.eclasses@.len(),
            forall|x: int| 0 <= x < g0.eclasses@.len() && x != r ==> self.eclasses@[x] == g0.eclasses@[x],
            self.eclasses@[r] is Eclass,
            self.depth@ == g0.depth@,
            0 <= e < g0.eclasses@.len(),
        ensures
            root_in(self.eclasses@, self.depth@, e) == root_in(g0.eclasses@, g0.depth@, e),
        decreases g0.depth@[e],
    {
        if e != r {
            if let EclassEntry::Union(j) = g0.eclasses@[e] {
                self.lemma_root_same_shape(g0, r, j.0 as int);
            }
        }
    }
}


/// Pushing a root entry leaves the roots of the old entries.
proof fn lemma_root_push(ec: Seq<EclassEntry>, d: Seq<nat>, x: EclassEntry, e: int)
    requires
        links_wf(ec, d),
        x is Eclass,
        0 <= e < ec.len(),
    ensures
        root_in(ec.push(x), d.push(0), e) == root_in(ec, d, e),
    decreases d[e],
{
    if let EclassEntry::Union(j) = ec[e] {
        lemma_root_push(ec, d, x, j.0 as int);
    }
}

impl Graph {
    /// The parts of well-formedness about nodes that relinking two nodes to
    /// an entry in range keeps.
    proof fn lemma_relinked_nodes(&self, g0: &Graph, origin: NodeId, canon: NodeId, r: EclassId)
        requires
            g0.wf(),
            relinked(self.nodes@, g0.nodes@, origin, canon, r),
            g0.eclasses@.len() <= self.eclasses@.len(),
            (r.0 as int) < self.eclasses@.len(),
            self.copy_bound == g0.copy_bound,
        ensures
            forall|i: int|
                0 <= i < self.nodes@.len() ==> children_below(#[trigger] self.nodes@[i].node, i),
            forall|i: int|
                0 <= i < self.nodes@.len() ==> copy_within(#[trigger] self.nodes@[i].node, self.copy_bound as int),
            forall|i: int|
                0 <= i < self.nodes@.len() ==> (#[trigger] self.nodes@[i].eclass matches Some(e) ==> e.0
                    < self.eclasses@.len()),
            self@ == g0@,
            self.creators() == g0.creators(),
    {
        assert forall|i: int| 0 <= i < self.nodes@.len() implies children_below(#[trigger] self.nodes@[i].node, i) by {
            assert(children_below(g0.nodes@[i].node, i));
        }
        assert forall|i: int| 0 <= i < self.nodes@.len() implies copy_within(#[trigger] self.nodes@[i].node, self.copy_bound as int) by {
            assert(copy_within(g0.nodes@[i].node, g0.copy_bound as int));
        }
        assert forall|i: int| 0 <= i < self.nodes@.len() implies (#[trigger] self.nodes@[i].eclass matches Some(e)
            ==> e.0 < self.eclasses@.len()) by {
            assert(g0.nodes@[i].eclass matches Some(e) ==> e.0 < g0.eclasses@.len());
        }
        assert(self@ =~= g0@);
        assert(self.creators() =~= g0.creators());
    }

    proof fn lemma_fresh_class(&self, g0: &Graph, origin: NodeId, canon: NodeId)
        requires
            g0.wf(),
            (origin.0 as int) < g0.nodes@.len(),
            (canon.0 as int) < g0.nodes@.len(),
            g0.nodes@[origin.0 as int].eclass is None,
            g0.nodes@[canon.0 as int].eclass is None,
            g0.eclasses@.len() < usize::MAX,
            relinked(self.nodes@, g0.nodes@, origin, canon, EclassId(g0.eclasses@.len() as usize)),
            self.eclasses@.len() == g0.eclasses@.len() + 1,
            self.eclasses@.take(g0.eclasses@.len() as int) == g0.eclasses@,
            self.eclasses@[g0.eclasses@.len() as int] matches EclassEntry::Eclass(c) && c.canon == canon
                && c.nodes@ == seq![canon, origin],
            self.depth@ == g0.depth@.push(0),
            self.same_counters(g0),
        ensures
            self.wf(),
            self@ == g0@,
            self.creators() == g0.creators(),
            self.unified(g0, origin, canon),
    {
        lemma_table_relinked(g0.node_indices, self.nodes@, g0.nodes@, origin, canon, EclassId(g0.eclasses@.len() as usize));
        let n = g0.nodes@.len();
        let m = g0.eclasses@.len() as int;
        let x = self.eclasses@[m];
        assert(self.eclasses@ =~= g0.eclasses@.push(x));
        self.lemma_relinked_nodes(g0, origin, canon, EclassId(m as usize));
        assert(links_wf(self.eclasses@, self.depth@)) by {
            assert forall|e: int| 0 <= e < self.eclasses@.len() implies match #[trigger] self.eclasses@[e] {
                EclassEntry::Eclass(_) => self.depth@[e] == 0,
                EclassEntry::Union(j) => j.0 < self.eclasses@.len() && self.depth@[e] == self.depth@[j.0 as int] + 1,
            } by {
                if e < m {
                    assert(self.eclasses@[e] == g0.eclasses@[e]);
                    assert(match g0.eclasses@[e] {
                        EclassEntry::Eclass(_) => g0.depth@[e] == 0,
                        EclassEntry::Union(j) => j.0 < g0.eclasses@.len() && g0.depth@[e] == g0.depth@[j.0 as int] + 1,
                    });
                }
            }
        }
        assert forall|e: int| 0 <= e < m implies #[trigger] root_in(self.eclasses@, self.depth@, e)
            == root_in(g0.eclasses@, g0.depth@, e) && 0 <= root_in(g0.eclasses@, g0.depth@, e) < m by {
            lemma_root_push(g0.eclasses@, g0.depth@, x, e);
            lemma_root_in(g0.eclasses@, g0.depth@, e);
        }
        assert(root_in(self.eclasses@, self.depth@, m) == m);
        assert forall|a: NodeId| a.0 < n implies #[trigger] self.class_root(a) == (if a == origin || a == canon {
            Some(m)
        } else {
            g0.class_root(a)
        }) by {
            if !(a == origin || a == canon) {
                assert(self.nodes@[a.0 as int] == g0.nodes@[a.0 as int]);
                if let Some(f) = g0.nodes@[a.0 as int].eclass {
                    assert(f.0 < m);
                    assert(root_in(self.eclasses@, self.depth@, f.0 as int) == root_in(g0.eclasses@, g0.depth@, f.0 as int));
                }
            } else {
                assert(self.nodes@[a.0 as int].eclass == Some(EclassId(m as usize)));
            }
        }
        assert forall|e: int| 0 <= e < m implies self.class_nodes(e) == g0.class_nodes(e)
            && self.class_canon(e) == g0.class_canon(e) by {
            assert(self.eclasses@[e] == g0.eclasses@[e]);
        }
        assert(classes_wf(self.eclasses@, n)) by {
            assert forall|e: int| 0 <= e < self.eclasses@.len() implies match #[trigger] self.eclasses@[e] {
                EclassEntry::Eclass(c) => {
                    &&& c.canon.0 < n
                    &&& c.nodes@.contains(c.canon)
                    &&& forall|k: int| 0 <= k < c.nodes@.len() ==> (#[trigger] c.nodes@[k]).0 < n
                },
                EclassEntry::Union(_) => true,
            } by {
                if e < m {
                    assert(self.eclasses@[e] == g0.eclasses@[e]);
                    assert(match g0.eclasses@[e] {
                        EclassEntry::Eclass(c) => {
                            &&& c.canon.0 < n
                            &&& c.nodes@.contains(c.canon)
                            &&& forall|k: int| 0 <= k < c.nodes@.len() ==> (#[trigger] c.nodes@[k]).0 < n
                        },
                        EclassEntry::Union(_) => true,
                    });
                } else {
                    assert(self.class_nodes(e)[0] == canon);
                }
            }
        }
        assert forall|i: int, e: int|
            0 <= i < n && 0 <= e < self.eclasses@.len() && (#[trigger] self.eclasses@[e]) is Eclass implies ((
            #[trigger] self.nodes@[i].eclass matches Some(f) && self.root_of(f.0 as int) == e)
                <==> self.class_nodes(e).contains(NodeId(i as usize))) by {
            let a = NodeId(i as usize);
            assert(self.class_root(a) == (if a == origin || a == canon { Some(m) } else { g0.class_root(a) }));
            if e < m {
                assert(g0.eclasses@[e] is Eclass);
                assert((g0.nodes@[i].eclass matches Some(f) && g0.root_of(f.0 as int) == e)
                    <==> g0.class_nodes(e).contains(a));
            } else {
                if self.class_nodes(e).contains(a) {
                    let k = choose|k: int| 0 <= k < self.class_nodes(e).len() && self.class_nodes(e)[k] == a;
                    assert(k == 0 || k == 1);
                } else {
                    if a == canon {
                        assert(self.class_nodes(e)[0] == a);
                    }
                    if a == origin {
                        assert(self.class_nodes(e)[1] == a);
                    }
                }
            }
        }
        assert forall|a: NodeId| a.0 < n implies (g0.same_class(a, origin) <==> a == origin)
            && (g0.same_class(a, canon) <==> a == canon) by {}
    }

    proof fn lemma_join(&self, g0: &Graph, origin: NodeId, canon: NodeId, r: int, added: NodeId, old_nodes: Seq<NodeId>)
        requires
            g0.wf(),
            (origin.0 as int) < g0.nodes@.len(),
            (canon.0 as int) < g0.nodes@.len(),
            0 <= r < g0.eclasses@.len(),
            (g0.nodes@[origin.0 as int].eclass is None && g0.class_root(canon) == Some(r) && added == origin)
                || (g0.nodes@[canon.0 as int].eclass is None && g0.class_root(origin) == Some(r) && added
                == canon),
            old_nodes == g0.class_nodes(r),
            relinked(self.nodes@, g0.nodes@, origin, canon, EclassId(r as usize)),
            self.eclasses@.len() == g0.eclasses@.len(),
            forall|e: int| 0 <= e < g0.eclasses@.len() && e != r ==> self.eclasses@[e] == g0.eclasses@[e],
            self.eclasses@[r] matches EclassEntry::Eclass(c) && c.canon == canon && c.nodes@ == old_nodes.push(added),
            self.depth@ == g0.depth@,
            self.same_counters(g0),
        ensures
            self.wf(),
            self@ == g0@,
            self.creators() == g0.creators(),
            self.unified(g0, origin, canon),
    {
        lemma_table_relinked(g0.node_indices, self.nodes@, g0.nodes@, origin, canon, EclassId(r as usize));
        let n = g0.nodes@.len();
        let m = g0.eclasses@.len();
        let linked = if added == origin { canon } else { origin };
        let f = g0.nodes@[linked.0 as int].eclass.unwrap();
        lemma_root_in(g0.eclasses@, g0.depth@, f.0 as int);
        assert(g0.eclasses@[r] is Eclass);
        self.lemma_relinked_nodes(g0, origin, canon, EclassId(r as usize));
        assert(links_wf(self.eclasses@, self.depth@)) by {
            assert forall|e: int| 0 <= e < self.eclasses@.len() implies match #[trigger] self.eclasses@[e] {
                EclassEntry::Eclass(_) => self.depth@[e] == 0,
                EclassEntry::Union(j) => j.0 < self.eclasses@.len() && self.depth@[e] == self.depth@[j.0 as int] + 1,
            } by {
                assert(match g0.eclasses@[e] {
                    EclassEntry::Eclass(_) => g0.depth@[e] == 0,
                    EclassEntry::Union(j) => j.0 < g0.eclasses@.len() && g0.depth@[e] == g0.depth@[j.0 as int] + 1,
                });
            }
        }
        assert forall|e: int| 0 <= e < m implies #[trigger] root_in(self.eclasses@, self.depth@, e)
            == root_in(g0.eclasses@, g0.depth@, e) by {
            self.lemma_root_same_shape(g0, r, e);
        }
        assert forall|a: NodeId| a.0 < n implies #[trigger] self.class_root(a) == (if a == origin || a == canon {
            Some(r)
        } else {
            g0.class_root(a)
        }) by {
            if !(a == origin || a == canon) {
                assert(self.nodes@[a.0 as int] == g0.nodes@[a.0 as int]);
                if let Some(f) = g0.nodes@[a.0 as int].eclass {
                    assert(f.0 < m);
                }
            } else {
                assert(self.nodes@[a.0 as int].eclass == Some(EclassId(r as usize)));
            }
        }
        assert(g0.class_nodes(r).contains(linked)) by {
            assert(g0.nodes@[linked.0 as int].eclass matches Some(f) && g0.root_of(f.0 as int) == r);
            assert(NodeId(linked.0 as usize) == linked);
        }
        assert(classes_wf(self.eclasses@, n)) by {
            assert forall|e: int| 0 <= e < self.eclasses@.len() implies match #[trigger] self.eclasses@[e] {
                EclassEntry::Eclass(c) => {
                    &&& c.canon.0 < n
                    &&& c.nodes@.contains(c.canon)
                    &&& forall|k: int| 0 <= k < c.nodes@.len() ==> (#[trigger] c.nodes@[k]).0 < n
                },
                EclassEntry::Union(_) => true,
            } by {
                assert(match g0.eclasses@[e] {
                    EclassEntry::Eclass(c) => {
                        &&& c.canon.0 < n
                        &&& c.nodes@.contains(c.canon)
                        &&& forall|k: int| 0 <= k < c.nodes@.len() ==> (#[trigger] c.nodes@[k]).0 < n
                    },
                    EclassEntry::Union(_) => true,
                });
                if e == r {
                    let c = self.class_nodes(e);
                    assert forall|k: int| 0 <= k < c.len() implies (#[trigger] c[k]).0 < n by {
                        if k < old_nodes.len() {
                            assert(c[k] == old_nodes[k]);
                        }
                    }
                    if canon == added {
                        assert(c[old_nodes.len() as int] == canon);
                    } else {
                        let k = choose|k: int| 0 <= k < old_nodes.len() && old_nodes[k] == linked;
                        assert(c[k] == canon);
                    }
                }
            }
        }
        assert forall|i: int, e: int|
            0 <= i < n && 0 <= e < self.eclasses@.len() && (#[trigger] self.eclasses@[e]) is Eclass implies ((
            #[trigger] self.nodes@[i].eclass matches Some(f) && self.root_of(f.0 as int) == e)
                <==> self.class_nodes(e).contains(NodeId(i as usize))) by {
            let a = NodeId(i as usize);
            assert(self.class_root(a) == (if a == origin || a == canon { Some(r) } else { g0.class_root(a) }));
            assert(g0.eclasses@[e] is Eclass);
            assert((g0.nodes@[i].eclass matches Some(f) && g0.root_of(f.0 as int) == e)
                <==> g0.class_nodes(e).contains(a));
            if e == r {
                let c = self.class_nodes(e);
                if c.contains(a) {
                    let k = choose|k: int| 0 <= k < c.len() && c[k] == a;
                    if k < old_nodes.len() {
                        assert(old_nodes[k] == a);
                    }
                }
                if g0.class_nodes(e).contains(a) {
                    let k = choose|k: int| 0 <= k < old_nodes.len() && old_nodes[k] == a;
                    assert(c[k] == a);
                }
                if a == added {
                    assert(c[old_nodes.len() as int] == a);
                }
            }
        }
        assert forall|a: NodeId| a.0 < n && !self.same_class(a, canon) implies self.canonical(a) == g0.canonical(a) by {
            if let Some(q) = g0.class_root(a) {
                lemma_root_in(g0.eclasses@, g0.depth@, g0.nodes@[a.0 as int].eclass.unwrap().0 as int);
            }
        }
        assert forall|a: NodeId| a.0 < n implies (g0.same_class(a, added) <==> a == added) by {}
    }
}

impl Graph {
    proof fn lemma_merge(
        &self,
        g0: &Graph,
        origin: NodeId,
        canon: NodeId,
        r1: int,
        r2: int,
        nodes1: Seq<NodeId>,
        nodes2: Seq<NodeId>,
    )
        requires
            g0.wf(),
            (origin.0 as int) < g0.nodes@.len(),
            (canon.0 as int) < g0.nodes@.len(),
            0 <= r1 < g0.eclasses@.len(),
            0 <= r2 < g0.eclasses@.len(),
            r1 != r2,
            g0.class_root(origin) == Some(r1),
            g0.class_root(canon) == Some(r2),
            nodes1 == g0.class_nodes(r1),
            nodes2 == g0.class_nodes(r2),
            relinked(self.nodes@, g0.nodes@, origin, canon, EclassId(r2 as usize)),
            self.eclasses@ == g0.eclasses@.update(r1, EclassEntry::Union(EclassId(r2 as usize))).update(
                r2,
                self.eclasses@[r2],
            ),
            self.eclasses@[r2] matches EclassEntry::Eclass(c) && c.canon == canon && (forall|k: NodeId|
                c.nodes@.contains(k) <==> (nodes1.contains(k) || nodes2.contains(k))),
            self.depth@ == depth_after_union(g0.eclasses@, g0.depth@, r1),
            self.same_counters(g0),
        ensures
            self.wf(),
            self@ == g0@,
            self.creators() == g0.creators(),
            self.unified(g0, origin, canon),
    {
        lemma_table_relinked(g0.node_indices, self.nodes@, g0.nodes@, origin, canon, EclassId(r2 as usize));
        let n = g0.nodes@.len();
        let m = g0.eclasses@.len();
        let ec0 = g0.eclasses@;
        let d0 = g0.depth@;
        let c = match self.eclasses@[r2] {
            EclassEntry::Eclass(c) => c,
            EclassEntry::Union(_) => arbitrary(),
        };
        let f1 = g0.nodes@[origin.0 as int].eclass.unwrap();
        let f2 = g0.nodes@[canon.0 as int].eclass.unwrap();
        lemma_root_in(ec0, d0, f1.0 as int);
        lemma_root_in(ec0, d0, f2.0 as int);
        assert(self.eclasses@ == ec0.update(r1, EclassEntry::Union(EclassId(r2 as usize))).update(
            r2,
            EclassEntry::Eclass(c),
        ));
        lemma_links_after_union(ec0, d0, self.eclasses@, r1, r2, c);
        self.lemma_relinked_nodes(g0, origin, canon, EclassId(r2 as usize));
        assert forall|e: int| 0 <= e < m implies #[trigger] root_in(self.eclasses@, self.depth@, e) == (if root_in(
            ec0,
            d0,
            e,
        ) == r1 {
            r2
        } else {
            root_in(ec0, d0, e)
        }) by {
            lemma_root_after_union(ec0, d0, self.eclasses@, r1, r2, c, e);
        }
        assert forall|a: NodeId| a.0 < n implies #[trigger] self.class_root(a) == (match g0.class_root(a) {
            Some(x) => Some(if x == r1 { r2 } else { x }),
            None => None,
        }) by {
            if !(a == origin || a == canon) {
                assert(self.nodes@[a.0 as int] == g0.nodes@[a.0 as int]);
                if let Some(f) = g0.nodes@[a.0 as int].eclass {
                    assert(f.0 < m);
                }
            } else {
                assert(self.nodes@[a.0 as int].eclass == Some(EclassId(r2 as usize)));
                assert(root_in(ec0, d0, r2) == r2);
            }
        }
        assert(nodes2.contains(canon)) by {
            assert(g0.nodes@[canon.0 as int].eclass matches Some(f) && g0.root_of(f.0 as int) == r2);
            assert(NodeId(canon.0 as usize) == canon);
        }
        assert(classes_wf(self.eclasses@, n)) by {
            assert forall|e: int| 0 <= e < self.eclasses@.len() implies match #[trigger] self.eclasses@[e] {
                EclassEntry::Eclass(c) => {
                    &&& c.canon.0 < n
                    &&& c.nodes@.contains(c.canon)
                    &&& forall|k: int| 0 <= k < c.nodes@.len() ==> (#[trigger] c.nodes@[k]).0 < n
                },
                EclassEntry::Union(_) => true,
            } by {
                assert(match g0.eclasses@[e] {
                    EclassEntry::Eclass(c) => {
                        &&& c.canon.0 < n
                        &&& c.nodes@.contains(c.canon)
                        &&& forall|k: int| 0 <= k < c.nodes@.len() ==> (#[trigger] c.nodes@[k]).0 < n
                    },
                    EclassEntry::Union(_) => true,
                });
                if e == r2 {
                    assert(match g0.eclasses@[r1] {
                        EclassEntry::Eclass(c) => {
                            &&& forall|k: int| 0 <= k < c.nodes@.len() ==> (#[trigger] c.nodes@[k]).0 < n
                        },
                        EclassEntry::Union(_) => true,
                    });
                    assert forall|k: int| 0 <= k < c.nodes@.len() implies (#[trigger] c.nodes@[k]).0 < n by {
                        let x = c.nodes@[k];
                        assert(c.nodes@.contains(x));
                        if nodes1.contains(x) {
                            let j = choose|j: int| 0 <= j < nodes1.len() && nodes1[j] == x;
                        } else {
                            let j = choose|j: int| 0 <= j < nodes2.len() && nodes2[j] == x;
                        }
                    }
                }
            }
        }
        assert forall|i: int, e: int|
            0 <= i < n && 0 <= e < self.eclasses@.len() && (#[trigger] self.eclasses@[e]) is Eclass implies ((
            #[trigger] self.nodes@[i].eclass matches Some(f) && self.root_of(f.0 as int) == e)
                <==> self.class_nodes(e).contains(NodeId(i as usize))) by {
            let a = NodeId(i as usize);
            assert(self.class_root(a) == (match g0.class_root(a) {
                Some(x) => Some(if x == r1 { r2 } else { x }),
                None => None,
            }));
            assert(e != r1);
            assert(g0.eclasses@[e] is Eclass);
            assert((g0.nodes@[i].eclass matches Some(f) && g0.root_of(f.0 as int) == e)
                <==> g0.class_nodes(e).contains(a));
            if e == r2 {
                assert(g0.eclasses@[r1] is Eclass);
                assert((g0.nodes@[i].eclass matches Some(f) && g0.root_of(f.0 as int) == r1)
                    <==> g0.class_nodes(r1).contains(a));
            }
        }
        assert forall|a: NodeId| a.0 < n && !self.same_class(a, canon) implies self.canonical(a) == g0.canonical(a) by {
            if let Some(q) = g0.class_root(a) {
                lemma_root_in(ec0, d0, g0.nodes@[a.0 as int].eclass.unwrap().0 as int);
            }
        }
    }
}

impl Graph {
    /// The canonical node of the e-class with ID `eid`.
    pub closed spec fn eclass_canon(&self, eid: EclassId) -> NodeId {
        self.class_canon(self.root_of(eid.0 as int))
    }

    /// The nodes listed in the e-class with ID `eid`.
    pub closed spec fn eclass_members(&self, eid: EclassId) -> Seq<NodeId> {
        self.class_nodes(self.root_of(eid.0 as int))
    }

    /// The e-class that a node's entry names holds exactly the nodes in the
    /// node's e-class, and its canonical node is the node's canonical node.
    pub proof fn lemma_eclass_of_node(&self, n: NodeId)
        requires
            self.wf(),
            (n.0 as int) < self@.len(),
            self.eclass_links()[n.0 as int] is Some,
        ensures
            ({
                let eid = self.eclass_links()[n.0 as int]->0;
                &&& self.eclass_canon(eid) == self.canonical(n)
                &&& forall|m: NodeId|
                    m.0 < self@.len() ==> (self.eclass_members(eid).contains(m) <==> self.same_class(n, m))
            }),
    {
        let eid = self.nodes@[n.0 as int].eclass.unwrap();
        lemma_root_in(self.eclasses@, self.depth@, eid.0 as int);
        let r = self.root_of(eid.0 as int);
        assert forall|m: NodeId| m.0 < self@.len() implies (self.eclass_members(eid).contains(m)
            <==> self.same_class(n, m)) by {
            assert((self.nodes@[m.0 as int].eclass matches Some(f) && self.root_of(f.0 as int) == r)
                <==> self.class_nodes(r).contains(NodeId(m.0 as usize)));
            assert((self.nodes@[n.0 as int].eclass matches Some(f) && self.root_of(f.0 as int) == r)
                <==> self.class_nodes(r).contains(NodeId(n.0 as usize)));
            assert(NodeId(m.0 as usize) == m);
            assert(NodeId(n.0 as usize) == n);
        }
    }

    /// Looks up the ID of this node, if it has already been inserted.
    pub fn find(&self, node: &Node) -> (r: Option<NodeId>)
        requires
            self.wf(),
        ensures
            r matches Some(id) ==> (id.0 as int) < self@.len() && self@[id.0 as int] == *node,
            r is None <==> !self@.contains(*node),
    {
        match table_find(&self.node_indices, &self.nodes, node) {
            Some(index) => {
                proof {
                    assert(self.nodes@[index as int].node == *node);
                    assert(self@[index as int] == *node);
                }
                Some(NodeId(index))
            },
            None => {
                proof {
                    if self@.contains(*node) {
                        let j = choose|j: int| 0 <= j < self@.len() && self@[j] == *node;
                        assert(table_map(self.node_indices).dom().contains(j as usize));
                        assert(self.nodes@[j].node == *node);
                    }
                }
                None
            },
        }
    }

    /// Generates a fresh ID for the next basic block.
    pub fn fresh_block_id(&mut self) -> (id: BlockId)
        requires
            old(self).spec_next_block().0 < u32::MAX,
        ensures
            id == old(self).spec_next_block(),
            final(self).spec_next_block().0 == id.0 + 1,
            final(self)@ == old(self)@,
            final(self).wf() == old(self).wf(),
            final(self).extends(old(self)),
            final(self).spec_next_input() == old(self).spec_next_input(),
    {
        let id = self.next_block;
        self.next_block = BlockId(self.next_block.0 + 1);
        proof {
            assert forall|a: NodeId| #[trigger] self.class_root(a) == old(self).class_root(a) by {}

            assert(self@.take(self@.len() as int) =~= self@);
            assert(self.creators().take(self@.len() as int) =~= self.creators());
        }
        id
    }

    /// Inserts a `Node::Input` with a fresh ID.
    pub fn fresh_input(&mut self) -> (id: NodeId)
        requires
            old(self).wf(),
            old(self).spec_next_input().0 < u32::MAX,
        ensures
            final(self).wf(),
            final(self).extends(old(self)),
            (id.0 as int) < final(self)@.len(),
            final(self)@[id.0 as int] == Node::Input(old(self).spec_next_input()),
            final(self).spec_next_input().0 == old(self).spec_next_input().0 + 1,
            final(self).spec_next_block() == old(self).spec_next_block(),
            final(self)@.len() <= old(self)@.len() + 1,
    {
        let id = self.insert(Node::Input(self.next_input));
        let ghost mid = *self;
        self.next_input = InputId(self.next_input.0 + 1);
        proof {
            assert forall|a: NodeId| #[trigger] self.class_root(a) == mid.class_root(a) by {}
            assert forall|a: NodeId| #[trigger] self.canonical(a) == mid.canonical(a) by {}
            assert forall|a: NodeId, b: NodeId| #[trigger] self.same_class(a, b) == mid.same_class(a, b) by {}
        }
        id
    }

    /// Whether a block can still be cloned into a fresh one: a block ID is
    /// left, and an input ID for each node that the clone could read.
    pub(crate) fn has_clone_room(&self) -> (r: bool)
        ensures
            r == (self.spec_next_block().0 < u32::MAX && self.spec_next_input().0 + self@.len() <= u32::MAX),
    {
        self.next_block.0 < u32::MAX && (self.next_input.0 as u128) + (self.nodes.len() as u128) <= u32::MAX as u128
    }

    /// Gets a recursive reference to a node in the e-graph.
    pub fn get(&self, id: NodeId) -> (r: NodeRef<'_>)
        ensures
            r.spec_id() == id,
            r.spec_graph() == self,
    {
        NodeRef { id, graph: self }
    }

    /// Gets the entry for a node.
    pub fn entry(&self, id: NodeId) -> (e: &NodeEntry)
        requires
            (id.0 as int) < self@.len(),
        ensures
            e.spec_node() == self@[id.0 as int],
            e.spec_creator() == self.creators()[id.0 as int],
            e.spec_eclass() == self.eclass_links()[id.0 as int],
    {
        &self.nodes[id.0 as usize]
    }

    /// Gets the node with the given ID.
    pub fn index(&self, id: NodeId) -> (n: &Node)
        requires
            (id.0 as int) < self@.len(),
        ensures
            *n == self@[id.0 as int],
    {
        &self.nodes[id.0 as usize].node
    }

    /// Gets the root e-class for an e-class ID.
    pub fn index_eclass(&self, eid: EclassId) -> (c: &Eclass)
        requires
            self.wf(),
            eid.0 < self.spec_eclasses_len(),
        ensures
            c.spec_canon() == self.eclass_canon(eid),
            c.spec_nodes() == self.eclass_members(eid),
    {
        self.eclass(eid).1
    }

    /// Returns the number of nodes in this e-graph.
    pub fn len(&self) -> (n: usize)
        ensures
            n == self@.len(),
    {
        self.nodes.len()
    }

    /// Returns whether this e-graph contains no values.
    pub fn is_empty(&self) -> (b: bool)
        ensures
            b == (self@.len() == 0),
    {
        self.nodes.len() == 0
    }

    /// Returns the number of e-classes in this e-graph.
    pub fn eclasses(&self) -> (n: usize)
        ensures
            n == self.spec_eclasses_len(),
    {
        self.eclasses.len()
    }

    /// Records the optimization pass which is currently executing, so it can be
    /// reported in nodes that are generated by it.
    pub fn set_pass(&mut self, pass: Pass)
        ensures
            final(self).spec_pass() == pass,
            final(self)@ == old(self)@,
            final(self).creators() == old(self).creators(),
            final(self).wf() == old(self).wf(),
            forall|a: NodeId, b: NodeId| final(self).same_class(a, b) == old(self).same_class(a, b),
            forall|a: NodeId| final(self).canonical(a) == old(self).canonical(a),
            final(self).spec_next_block() == old(self).spec_next_block(),
            final(self).spec_next_input() == old(self).spec_next_input(),
    {
        self.pass = pass;
    }
}

impl Default for Graph {
    fn default() -> (g: Self)
        ensures
            g.wf(),
            g@ == Seq::<Node>::empty(),
    {
        Graph::new()
    }
}

impl NodeEntry {
    /// The node of this entry.
    pub closed spec fn spec_node(&self) -> Node {
        self.node
    }

    /// The e-class entry this node names.
    pub closed spec fn spec_eclass(&self) -> Option<EclassId> {
        self.eclass
    }

    /// The pass which created this node.
    pub closed spec fn spec_creator(&self) -> Pass {
        self.creator
    }

    /// Gets a reference to this node.
    pub fn node(&self) -> (n: &Node)
        ensures
            *n == self.spec_node(),
    {
        &self.node
    }

    /// The e-class this node is in, or `None` if it is in a singleton e-class.
    pub fn eclass(&self) -> (e: Option<EclassId>)
        ensures
            e == self.spec_eclass(),
    {
        self.eclass
    }

    /// The pass which created this node.
    pub fn creator(&self) -> (p: Pass)
        ensures
            p == self.spec_creator(),
    {
        self.creator
    }
}

impl NodeId {
    /// Returns the 0-based index of this ID.
    pub fn index(&self) -> (i: usize)
        ensures
            i == self.0,
    {
        self.0 as usize
    }

    /// Unifies `self` and `canon` into the same e-class and makes `canon` the
    /// canonical node.
    pub fn replace(self, canon: NodeId, g: &mut Graph)
        requires
            old(g).wf(),
            (self.0 as int) < old(g)@.len(),
            (canon.0 as int) < old(g)@.len(),
        ensures
            final(g).wf(),
            final(g)@ == old(g)@,
            final(g).creators() == old(g).creators(),
            final(g).spec_next_block() == old(g).spec_next_block(),
            final(g).spec_next_input() == old(g).spec_next_input(),
            final(g).spec_pass() == old(g).spec_pass(),
            final(g).unified(old(g), self, canon),
            final(g).relinked_classes(old(g), self, canon),
            forall|i: int|
                0 <= i < old(g)@.len() && i != self.0 && i != canon.0
                    ==> #[trigger] final(g).eclass_links()[i] == old(g).eclass_links()[i],
    {
        g.replace(self, canon);
    }
}

impl<'g> NodeRef<'g> {
    /// The ID this reference names.
    pub closed spec fn spec_id(&self) -> NodeId {
        self.id
    }

    /// The graph this reference points into.
    pub closed spec fn spec_graph(&self) -> &'g Graph {
        self.graph
    }

    /// Gets the ID of this node.
    pub fn id(&self) -> (id: NodeId)
        ensures
            id == self.spec_id(),
    {
        self.id
    }

    /// Gets a reference to this node.
    pub fn node(&self) -> (n: &'g Node)
        requires
            (self.spec_id().0 as int) < self.spec_graph()@.len(),
        ensures
            *n == self.spec_graph()@[self.spec_id().0 as int],
    {
        self.graph.index(self.id)
    }

    /// Gets a reference to the e-graph which contains this node.
    pub fn graph(&self) -> (g: &'g Graph)
        ensures
            g == self.spec_graph(),
    {
        self.graph
    }

    /// Gets a recursive reference to a node in the e-graph.
    pub fn get(&self, id: NodeId) -> (r: NodeRef<'g>)
        ensures
            r.spec_id() == id,
            r.spec_graph() == self.spec_graph(),
    {
        NodeRef { id, graph: self.graph }
    }
}

impl Eclass {
    /// The canonical node of this e-class.
    pub closed spec fn spec_canon(&self) -> NodeId {
        self.canon
    }

    /// The nodes of this e-class.
    pub closed spec fn spec_nodes(&self) -> Seq<NodeId> {
        self.nodes@
    }

    /// The canonical node which represents this e-class.
    pub fn canon(&self) -> (n: NodeId)
        ensures
            n == self.spec_canon(),
    {
        self.canon
    }

    /// All nodes which are in this e-class.
    pub fn nodes(&self) -> (s: &[NodeId])
        ensures
            s@ == self.spec_nodes(),
    {
        self.nodes.as_slice()
    }
}

impl EclassId {
    /// Returns the 0-based index of this ID.
    fn index(self) -> (i: usize)
        ensures
            i == self.0,
    {
        self.0 as usize
    }
}

impl Graph {
    /// In a well-formed graph, the operands of each node come before it and
    /// the node IDs fit in `usize`.
    pub proof fn lemma_wf_nodes(&self)
        requires
            self.wf(),
        ensures
            self@.len() <= usize::MAX,
            forall|i: int| 0 <= i < self@.len() ==> children_below(#[trigger] self@[i], i),
    {
        assert forall|i: int| 0 <= i < self@.len() implies children_below(#[trigger] self@[i], i) by {
            assert(children_below(self.nodes@[i].node, i));
        }
    }

    /// Structurally identical nodes have the same ID: no node occurs twice in
    /// a well-formed graph.
    pub proof fn lemma_node_ids_unique(&self, a: NodeId, b: NodeId)
        requires
            self.wf(),
            (a.0 as int) < self@.len(),
            (b.0 as int) < self@.len(),
            self@[a.0 as int] == self@[b.0 as int],
        ensures
            a == b,
    {
        assert(self@[a.0 as int] == self.nodes@[a.0 as int].node);
        assert(self@[b.0 as int] == self.nodes@[b.0 as int].node);
        if a.0 < b.0 {
            assert(self.nodes@[a.0 as int].node != self.nodes@[b.0 as int].node);
        } else if b.0 < a.0 {
            assert(self.nodes@[b.0 as int].node != self.nodes@[a.0 as int].node);
        }
    }

    /// Every e-class ID that a node's entry names is below the number of
    /// e-class entries.
    pub proof fn lemma_eclass_links_bounded(&self)
        requires
            self.wf(),
        ensures
            forall|i: int|
                0 <= i < self@.len() ==> (#[trigger] self.eclass_links()[i] matches Some(e) ==> e.0
                    < self.spec_eclasses_len()),
    {
        assert forall|i: int| 0 <= i < self@.len() implies (#[trigger] self.eclass_links()[i] matches Some(e)
            ==> e.0 < self.spec_eclasses_len()) by {
            assert(self.eclass_links()[i] == self.nodes@[i].eclass);
        }
    }

    /// After `x` is unified with `c`, the e-class that `x` names lists
    /// exactly the nodes that were in the e-class of `x` or of `c`; each of
    /// them names an e-class with the same list, whose canonical node is
    /// `c`.
    pub proof fn lemma_replace_class(g0: &Graph, g1: &Graph, x: NodeId, c: NodeId)
        requires
            g0.wf(),
            g1.wf(),
            (x.0 as int) < g0@.len(),
            (c.0 as int) < g0@.len(),
            g1@.len() == g0@.len(),
            g1.unified(g0, x, c),
            g1.relinked_classes(g0, x, c),
        ensures
            ({
                let e = g1.eclass_links()[x.0 as int]->0;
                &&& forall|m: NodeId|
                    m.0 < g1@.len() ==> (g1.eclass_members(e).contains(m) <==> (g0.same_class(m, x)
                        || g0.same_class(m, c)))
                &&& forall|m: NodeId|
                    #![trigger g1.eclass_links()[m.0 as int]]
                    m.0 < g1@.len() && (g0.same_class(m, x) || g0.same_class(m, c)) ==> {
                        &&& g1.eclass_links()[m.0 as int] is Some
                        &&& g1.eclass_members(g1.eclass_links()[m.0 as int]->0) == g1.eclass_members(e)
                        &&& g1.eclass_canon(g1.eclass_links()[m.0 as int]->0) == c
                    }
            }),
    {
        let e = g1.eclass_links()[x.0 as int]->0;
        g1.lemma_eclass_of_node(x);
        assert forall|m: NodeId| m.0 < g1@.len() implies (g1.eclass_members(e).contains(m) <==> (
            g0.same_class(m, x) || g0.same_class(m, c))) by {
            g0.lemma_same_class_symmetric(m, x);
            g0.lemma_same_class_symmetric(m, c);
            g0.lemma_same_class_symmetric(x, c);
            g1.lemma_same_class_symmetric(m, x);
            assert(g0.same_class(x, x));
        }
        assert forall|m: NodeId|
            #![trigger g1.eclass_links()[m.0 as int]]
            m.0 < g1@.len() && (g0.same_class(m, x) || g0.same_class(m, c)) implies {
                &&& g1.eclass_links()[m.0 as int] is Some
                &&& g1.eclass_members(g1.eclass_links()[m.0 as int]->0) == g1.eclass_members(e)
                &&& g1.eclass_canon(g1.eclass_links()[m.0 as int]->0) == c
            } by {
            g0.lemma_same_class_symmetric(m, x);
            g0.lemma_same_class_symmetric(m, c);
            g1.lemma_same_class_symmetric(m, x);
            assert(g0.same_class(x, x));
            assert(g1.same_class(m, x));
            assert(g1.same_class(m, c));
            if m != x {
                assert(g1.class_root(m) is Some && g1.class_root(m) == g1.class_root(x));
            }
            assert(g1.eclass_links()[m.0 as int] == g1.nodes@[m.0 as int].eclass);
            assert(g1.eclass_links()[x.0 as int] == g1.nodes@[x.0 as int].eclass);
            assert(g1.canonical(m) == c);
        }
    }

    /// Being in the same e-class is symmetric.
    pub proof fn lemma_same_class_symmetric(&self, a: NodeId, b: NodeId)
        ensures
            self.same_class(a, b) == self.same_class(b, a),
    {
    }

    /// A graph extends itself.
    pub proof fn lemma_extends_refl(&self)
        ensures
            self.extends(self),
    {
        assert(self@.take(self@.len() as int) =~= self@);
        assert(self.creators().take(self@.len() as int) =~= self.creators());
    }

    /// Extending is transitive.
    pub proof fn lemma_extends_trans(g0: &Graph, g1: &Graph, g2: &Graph)
        requires
            g1.extends(g0),
            g2.extends(g1),
        ensures
            g2.extends(g0),
    {
        assert(g2@.take(g0@.len() as int) =~= g1@.take(g0@.len() as int));
        assert(g2.creators().take(g0@.len() as int) =~= g1.creators().take(g0@.len() as int));
        assert forall|a: NodeId, b: NodeId|
            a.0 < g2@.len() && b.0 < g2@.len() && g0@.len() <= a.0 implies (g2.same_class(a, b)
                <==> a == b) by {
            if a.0 < g1@.len() && b.0 >= g1@.len() {
                assert(g2.same_class(b, a) <==> b == a);
            }
        }
    }
}

impl Graph {
    /// What extending a graph means: the old nodes, their creators and their
    /// e-classes stay, and the new nodes are in singleton e-classes.
    pub proof fn lemma_extends(&self, old: &Graph)
        requires
            self.extends(old),
        ensures
            old@.len() <= self@.len(),
            self@.take(old@.len() as int) == old@,
            self.creators().take(old@.len() as int) == old.creators(),
            forall|a: NodeId, b: NodeId|
                a.0 < old@.len() && b.0 < old@.len() ==> (self.same_class(a, b) <==> old.same_class(a, b)),
            forall|a: NodeId| a.0 < old@.len() ==> self.canonical(a) == old.canonical(a),
            forall|a: NodeId| old@.len() <= a.0 < self@.len() ==> self.canonical(a) == a,
            forall|a: NodeId, b: NodeId|
                a.0 < self@.len() && b.0 < self@.len() && old@.len() <= a.0 ==> (self.same_class(a, b)
                    <==> a == b),
            self.spec_pass() == old.spec_pass(),
    {
    }
}

impl Graph {
    /// A bound on the magnitude of the offsets of the `Copy` nodes.
    pub closed spec fn spec_copy_bound(&self) -> int {
        self.copy_bound as int
    }

    /// A bound on the magnitude of the offsets of the `Copy` nodes: each lies
    /// within `-bound - 1..=bound`.
    pub fn copy_bound(&self) -> (b: u64)
        ensures
            b == self.spec_copy_bound(),
    {
        self.copy_bound
    }

    /// In a well-formed graph, the offset of every `Copy` node lies within the
    /// copy bound, which fits in `i64`.
    pub proof fn lemma_copy_bound(&self)
        requires
            self.wf(),
        ensures
            0 <= self.spec_copy_bound() <= i64::MAX,
            self.spec_copy_bound() == copy_bound_of(self@),
            forall|i: int| 0 <= i < self@.len() ==> copy_within(#[trigger] self@[i], self.spec_copy_bound()),
    {
        assert forall|i: int| 0 <= i < self@.len() implies copy_within(#[trigger] self@[i], self.spec_copy_bound()) by {
            assert(copy_within(self.nodes@[i].node, self.copy_bound as int));
        }
    }
}

} // verus!
