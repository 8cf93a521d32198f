//! Building the allocation graph below one allocation, depth first.
//!
//! The walk decides which allocation to read next and when the graph is
//! complete; reading an allocation's bytes and the pointers in it is the
//! caller's part. The caller asks [`GraphWalk::next_to_read`] for an
//! allocation, reads it, and hands what it read to [`GraphWalk::record`],
//! until `next_to_read` answers `None`. Allocations are visited in the order
//! of a depth-first walk that follows the pointers of each allocation in the
//! order they were found.
use vstd::prelude::*;

verus! {

use crate::graph::layout::closed_graph;
use crate::graph::logical::{AllocGraph, IdView, NodeView, id_view, no_nodes};
use crate::heap::tracing::{AllocId, HexDump, PtrMeta};

/// The allocations of `pending` as plain pairs.
pub open spec fn pending_ids(pending: Seq<AllocId>) -> Seq<IdView> {
    pending.map_values(|a: AllocId| id_view(a))
}

/// Every edge of `nodes` points to a node of `nodes` or to an allocation
/// still waiting in `pending`.
pub open spec fn edges_covered(nodes: Map<IdView, NodeView>, pending: Seq<AllocId>) -> bool {
    forall|k: IdView, j: int|
        nodes.dom().contains(k) && 0 <= j < nodes[k].2.len() ==> nodes.dom().contains(
            (#[trigger] nodes[k].2[j]).0,
        ) || pending_ids(pending).contains(nodes[k].2[j].0)
}

/// The allocations among `targets` that have no node in `nodes`, last
/// first: pushed onto the stack of pending allocations in this order, the
/// first target comes off the stack first.
pub open spec fn unvisited_reversed(nodes: Map<IdView, NodeView>, targets: Seq<AllocId>) -> Seq<AllocId>
    decreases targets.len(),
{
    if targets.len() == 0 {
        Seq::empty()
    } else {
        let rest = unvisited_reversed(nodes, targets.drop_first());
        if nodes.dom().contains(id_view(targets[0])) {
            rest
        } else {
            rest.push(targets[0])
        }
    }
}

/// Every target has a node or is among the targets to visit.
proof fn lemma_targets_covered(nodes: Map<IdView, NodeView>, targets: Seq<AllocId>)
    ensures
        forall|i: int| 0 <= i < targets.len() ==> nodes.dom().contains(id_view(#[trigger] targets[i]))
            || pending_ids(unvisited_reversed(nodes, targets)).contains(id_view(targets[i])),
    decreases targets.len(),
{
    if targets.len() > 0 {
        let rest = targets.drop_first();
        lemma_targets_covered(nodes, rest);
        let u = unvisited_reversed(nodes, rest);
        assert forall|i: int| 0 <= i < targets.len() implies nodes.dom().contains(id_view(#[trigger] targets[i]))
            || pending_ids(unvisited_reversed(nodes, targets)).contains(id_view(targets[i])) by {
            if !nodes.dom().contains(id_view(targets[i])) {
                if i == 0 {
                    let v = u.push(targets[0]);
                    assert(pending_ids(v)[u.len() as int] == id_view(targets[0]));
                } else {
                    assert(targets[i] == rest[i - 1]);
                    let w = pending_ids(u);
                    let j = choose|j: int| 0 <= j < w.len() && w[j] == id_view(targets[i]);
                    if nodes.dom().contains(id_view(targets[0])) {
                        assert(pending_ids(unvisited_reversed(nodes, targets))[j] == id_view(targets[i]));
                    } else {
                        let v = u.push(targets[0]);
                        assert(pending_ids(v)[j] == w[j]);
                    }
                }
            }
        }
    }
}

/// The state of a depth-first walk that builds the graph of allocations
/// below a root: the graph built so far, and a stack of allocations that
/// were reached but perhaps not read yet (the top is the last element).
pub struct GraphWalk {
    graph: AllocGraph,
    pending: Vec<AllocId>,
    root: Ghost<AllocId>,
}

/// Every node of `nodes` is filed under its own allocation.
pub open spec fn keys_match(nodes: Map<IdView, NodeView>) -> bool {
    forall|k: IdView| #[trigger] nodes.dom().contains(k) ==> nodes[k].0 == k
}

/// The root has a node, or it is still at the bottom of the stack.
pub open spec fn root_kept(nodes: Map<IdView, NodeView>, pending: Seq<AllocId>, root: AllocId) -> bool {
    nodes.dom().contains(id_view(root)) || (pending.len() > 0 && pending[0] == root)
}

impl GraphWalk {
    /// Every pointer recorded so far leads to an allocation of the graph or
    /// to one still pending.
    #[verifier::type_invariant]
    spec fn pointers_lead_somewhere(self) -> bool {
        &&& edges_covered(self.graph.nodes(), self.pending@)
        &&& keys_match(self.graph.nodes())
        &&& root_kept(self.graph.nodes(), self.pending@, self.root@)
    }

    /// The allocation the walk started at.
    pub closed spec fn root(&self) -> AllocId {
        self.root@
    }

    /// The graph built so far.
    pub closed spec fn nodes(&self) -> Map<IdView, NodeView> {
        self.graph.nodes()
    }

    /// The stack of allocations reached but perhaps not read yet, top last.
    pub closed spec fn pending(&self) -> Seq<AllocId> {
        self.pending@
    }

    /// Start a walk at `root`: nothing is read yet, and `root` is the one
    /// allocation to read.
    pub fn start(root: AllocId) -> (r: Self)
        ensures
            r.nodes() == no_nodes(),
            r.pending() == seq![root],
            r.root() == root,
    {
        let mut pending: Vec<AllocId> = Vec::new();
        pending.push(root);
        GraphWalk { graph: AllocGraph::new(), pending, root: Ghost(root) }
    }

    /// The next allocation to read: allocations on top of the stack that
    /// already have a node are dropped, and the first one that has none is
    /// returned (and stays on the stack until it is recorded). `None` means
    /// the walk is over: the root has a node, every node is filed under its
    /// own allocation, and every pointer of the graph leads to a node of it.
    pub fn next_to_read(&mut self) -> (r: Option<AllocId>)
        ensures
            final(self).nodes() == old(self).nodes(),
            final(self).root() == old(self).root(),
            exists|k: int| 0 <= k <= old(self).pending().len() && final(self).pending() == old(self).pending().take(k)
                && forall|j: int| k <= j < old(self).pending().len() ==> old(self).nodes().dom().contains(
                    id_view(#[trigger] old(self).pending()[j]),
                ),
            r matches Some(id) ==> final(self).pending().len() > 0 && final(self).pending().last() == id
                && !final(self).nodes().dom().contains(id_view(id)),
            r is None ==> final(self).pending().len() == 0 && closed_graph(final(self).nodes())
                && final(self).nodes().dom().contains(id_view(final(self).root()))
                && keys_match(final(self).nodes()),
    {
        proof {
            use_type_invariant(&*self);
        }
        let ghost root = self.root@;
        let mut taken = GraphWalk::start(AllocId { ptr: 0, size: 0 });
        core::mem::swap(&mut taken, self);
        let GraphWalk { graph, mut pending, root: _ } = taken;
        let ghost nodes = graph.nodes();
        let ghost old_pending = pending@;
        let mut result: Option<AllocId> = None;
        while pending.len() > 0
            invariant_except_break
                graph.nodes() == nodes,
                pending@.len() <= old_pending.len(),
                pending@ == old_pending.take(pending@.len() as int),
                forall|j: int| pending@.len() <= j < old_pending.len() ==> nodes.dom().contains(
                    id_view(#[trigger] old_pending[j]),
                ),
                result is None,
            ensures
                graph.nodes() == nodes,
                pending@.len() <= old_pending.len(),
                pending@ == old_pending.take(pending@.len() as int),
                forall|j: int| pending@.len() <= j < old_pending.len() ==> nodes.dom().contains(
                    id_view(#[trigger] old_pending[j]),
                ),
                result matches Some(id) ==> pending@.len() > 0 && pending@.last() == id
                    && !nodes.dom().contains(id_view(id)),
                result is None ==> pending@.len() == 0,
            decreases pending@.len(),
        {
            let top = pending[pending.len() - 1];
            if !graph.contains(&top) {
                result = Some(top);
                break;
            }
            let ghost before = pending@;
            pending.pop();
            proof {
                assert(pending@ =~= old_pending.take(pending@.len() as int));
                assert(old_pending[pending@.len() as int] == top);
            }
        }
        proof {
            let k = pending@.len() as int;
            assert(pending@ == old_pending.take(k));
            assert forall|a: IdView| pending_ids(old_pending).contains(a) && !nodes.dom().contains(a)
                implies pending_ids(pending@).contains(a) by {
                let i = choose|i: int| 0 <= i < pending_ids(old_pending).len() && pending_ids(old_pending)[i] == a;
                assert(pending_ids(old_pending)[i] == id_view(old_pending[i]));
                if i >= k {
                    assert(nodes.dom().contains(id_view(old_pending[i])));
                }
                assert(pending_ids(pending@)[i] == a);
            }
            if result is None {
                assert forall|key: IdView, j: int|
                    nodes.dom().contains(key) && 0 <= j < nodes[key].2.len() implies nodes.dom().contains(
                    (#[trigger] nodes[key].2[j]).0) by {
                    if !nodes.dom().contains(nodes[key].2[j].0) {
                        assert(pending_ids(old_pending).contains(nodes[key].2[j].0));
                        assert(pending_ids(pending@).contains(nodes[key].2[j].0));
                    }
                }
            }
        }
        let ghost k = pending@.len() as int;
        proof {
            if !nodes.dom().contains(id_view(root)) {
                assert(old_pending[0] == root);
                if k == 0 {
                    assert(nodes.dom().contains(id_view(old_pending[0])));
                }
                assert(pending@[0] == old_pending[0]);
            }
        }
        *self = GraphWalk { graph, pending, root: Ghost(root) };
        assert(self.pending() == old(self).pending().take(k));
        result
    }

    /// Record what was read of `id`: its bytes and the pointers found in it.
    /// The node of `id` becomes what [`AllocGraph::insert_node`] makes of
    /// them, and the allocations those pointers lead to that have no node
    /// yet are pushed, so that the first of them is read next.
    pub fn record(&mut self, id: AllocId, hex_dump: HexDump, ptrs: Vec<PtrMeta>)
        ensures
            final(self).root() == old(self).root(),
            final(self).nodes() == old(self).nodes().insert(
                id_view(id),
                (id_view(id), hex_dump.bytes(), ptrs@.map_values(|p: PtrMeta| (id_view(p.id), p.address))),
            ),
            final(self).pending() == old(self).pending() + unvisited_reversed(
                final(self).nodes(),
                ptrs@.map_values(|p: PtrMeta| p.id),
            ),
    {
        proof {
            use_type_invariant(&*self);
        }
        let ghost root = self.root@;
        let mut taken = GraphWalk::start(AllocId { ptr: 0, size: 0 });
        core::mem::swap(&mut taken, self);
        let GraphWalk { mut graph, mut pending, root: _ } = taken;
        let ghost old_nodes = graph.nodes();
        let ghost old_pending = pending@;
        let targets = graph.insert_node(id, hex_dump, ptrs);
        let ghost nodes = graph.nodes();
        let mut i: usize = targets.len();
        while i > 0
            invariant
                i <= targets@.len(),
                graph.nodes() == nodes,
                pending@ == old_pending + unvisited_reversed(nodes, targets@.skip(i as int)),
            decreases i,
        {
            let t = targets[i - 1];
            let ghost before = pending@;
            proof {
                assert(targets@.skip(i - 1).drop_first() =~= targets@.skip(i as int));
                assert(targets@.skip(i - 1)[0] == t);
            }
            if !graph.contains(&t) {
                pending.push(t);
                assert(pending@ =~= old_pending + unvisited_reversed(nodes, targets@.skip(i - 1)));
            }
            i = i - 1;
        }
        proof {
            assert(targets@.skip(0) =~= targets@);
            let added = unvisited_reversed(nodes, targets@);
            lemma_targets_covered(nodes, targets@);
            assert forall|a: IdView| pending_ids(old_pending).contains(a) implies pending_ids(pending@).contains(a) by {
                let j = choose|j: int| 0 <= j < pending_ids(old_pending).len() && pending_ids(old_pending)[j] == a;
                assert(pending@[j] == old_pending[j]);
                assert(pending_ids(pending@)[j] == a);
            }
            assert forall|a: IdView| pending_ids(added).contains(a) implies pending_ids(pending@).contains(a) by {
                let j = choose|j: int| 0 <= j < pending_ids(added).len() && pending_ids(added)[j] == a;
                assert(pending@[old_pending.len() + j] == added[j]);
                assert(pending_ids(pending@)[old_pending.len() + j] == a);
            }
            let new_edges = nodes[id_view(id)].2;
            assert forall|key: IdView, j: int|
                nodes.dom().contains(key) && 0 <= j < nodes[key].2.len() implies nodes.dom().contains(
                (#[trigger] nodes[key].2[j]).0) || pending_ids(pending@).contains(nodes[key].2[j].0) by {
                if key == id_view(id) {
                    assert(new_edges[j].0 == id_view(targets@[j]));
                } else {
                    assert(old_nodes.dom().contains(key));
                    assert(nodes[key] == old_nodes[key]);
                }
            }
        }
        proof {
            assert forall|key: IdView| #[trigger] nodes.dom().contains(key) implies nodes[key].0 == key by {
                if key != id_view(id) {
                    assert(old_nodes.dom().contains(key));
                }
            }
            if !nodes.dom().contains(id_view(root)) {
                assert(pending@[0] == old_pending[0]);
            }
        }
        *self = GraphWalk { graph, pending, root: Ghost(root) };
    }

    /// The graph built by the walk.
    pub fn into_graph(self) -> (r: AllocGraph)
        ensures
            r.nodes() == self.nodes(),
    {
        self.graph
    }
}

} // verus!
