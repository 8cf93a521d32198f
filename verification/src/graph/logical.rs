//! The allocation graph: every traced allocation with its bytes and the
//! pointers it holds to other allocations.
use vstd::prelude::*;

verus! {

use crate::heap::tracing::{AllocId, HexDump, PtrMeta};

/// An allocation, as the plain pair (address, size).
pub open spec fn id_view(id: AllocId) -> (usize, usize) {
    (id.ptr, id.size)
}

/// An allocation as a plain value.
pub type IdView = (usize, usize);

/// An edge as a plain value: the allocation it points to and where the
/// pointer is stored.
pub type EdgeView = ((usize, usize), usize);

/// A node as a plain value: its allocation, its bytes and its edges.
pub type NodeView = ((usize, usize), Seq<u8>, Seq<EdgeView>);

/// A pointer from one allocation to another.
#[derive(Clone, Copy, PartialEq, Eq, Structural)]
pub struct AllocEdge {
    ptr_meta: PtrMeta,
}

impl AllocEdge {
    pub open spec fn view_edge(self) -> EdgeView {
        (id_view(self.ptr_meta_spec().id), self.ptr_meta_spec().address)
    }

    pub closed spec fn ptr_meta_spec(self) -> PtrMeta {
        self.ptr_meta
    }

    pub closed spec fn new_spec(ptr_meta: PtrMeta) -> Self {
        Self { ptr_meta }
    }

    pub fn new(ptr_meta: PtrMeta) -> (r: Self)
        ensures
            r.ptr_meta_spec() == ptr_meta,
            r == Self::new_spec(ptr_meta),
    {
        Self { ptr_meta }
    }

    /// The allocation this edge points to.
    pub fn alloc_id(&self) -> (r: &AllocId)
        ensures
            *r == self.ptr_meta_spec().id,
    {
        &self.ptr_meta.id
    }

    /// The pointer this edge stands for.
    pub fn ptr_meta(&self) -> (r: PtrMeta)
        ensures
            r == self.ptr_meta_spec(),
    {
        self.ptr_meta
    }
}

/// The edges of `edges` as plain values.
pub open spec fn edges_view(edges: Seq<AllocEdge>) -> Seq<EdgeView> {
    edges.map_values(|e: AllocEdge| e.view_edge())
}

/// One allocation of the graph: its identity, its bytes and its pointers.
pub struct AllocNode {
    alloc_id: AllocId,
    hex_dump: HexDump,
    children: Vec<AllocEdge>,
}

impl AllocNode {
    pub closed spec fn alloc_id_spec(&self) -> AllocId {
        self.alloc_id
    }

    pub closed spec fn bytes(&self) -> Seq<u8> {
        self.hex_dump.bytes()
    }

    pub closed spec fn children_spec(&self) -> Seq<AllocEdge> {
        self.children@
    }

    /// This node as a plain value.
    pub open spec fn view_node(&self) -> NodeView {
        (id_view(self.alloc_id_spec()), self.bytes(), edges_view(self.children_spec()))
    }

    pub fn new(alloc_id: AllocId, hex_dump: HexDump, children: Vec<AllocEdge>) -> (r: Self)
        ensures
            r.alloc_id_spec() == alloc_id,
            r.bytes() == hex_dump.bytes(),
            r.children_spec() == children@,
    {
        AllocNode { alloc_id, hex_dump, children }
    }

    pub fn alloc_id(&self) -> (r: AllocId)
        ensures
            r == self.alloc_id_spec(),
    {
        self.alloc_id
    }

    pub fn hex_dump(&self) -> (r: &HexDump)
        ensures
            r.bytes() == self.bytes(),
    {
        &self.hex_dump
    }

    pub fn children(&self) -> (r: &Vec<AllocEdge>)
        ensures
            r@ == self.children_spec(),
    {
        &self.children
    }
}

/// The map from allocations to their nodes, held in a `hashbrown::HashMap`.
#[verifier::external_body]
pub struct AllocNodeMap {
    map: hashbrown::HashMap<AllocId, AllocNode>,
}

/// The map with no nodes.
pub open spec fn no_nodes() -> Map<IdView, NodeView> {
    Map::empty()
}

/// The set with no allocations.
pub open spec fn no_ids() -> Set<IdView> {
    Set::empty()
}

/// What an [`AllocNodeMap`] holds: for each allocation (as a plain pair),
/// its node as a plain value.
pub uninterp spec fn node_map_contents(m: AllocNodeMap) -> Map<(usize, usize), NodeView>;

/// A set of allocations, held in a `hashbrown::HashSet`.
#[verifier::external_body]
pub struct AllocIdSet {
    set: hashbrown::HashSet<AllocId>,
}

/// What an [`AllocIdSet`] holds, as plain pairs.
pub uninterp spec fn id_set_contents(s: AllocIdSet) -> Set<(usize, usize)>;

/// `hashbrown::HashMap::new`: an empty map.
#[verifier::external_body]
fn node_map_new() -> (r: AllocNodeMap)
    ensures
        node_map_contents(r) == no_nodes(),
{
    AllocNodeMap { map: hashbrown::HashMap::new() }
}

/// `hashbrown::HashMap::insert`: afterwards `key` maps to `node`, and every
/// other key keeps its node.
#[verifier::external_body]
fn node_map_insert(m: &mut AllocNodeMap, key: AllocId, node: AllocNode)
    ensures
        node_map_contents(*final(m)) == node_map_contents(*old(m)).insert(id_view(key), node.view_node()),
{
    m.map.insert(key, node);
}

/// `hashbrown::HashMap::contains_key`.
#[verifier::external_body]
fn node_map_contains(m: &AllocNodeMap, key: &AllocId) -> (r: bool)
    ensures
        r == node_map_contents(*m).dom().contains(id_view(*key)),
{
    m.map.contains_key(key)
}

/// `hashbrown::HashMap::get`: the node of `key`, if there is one.
#[verifier::external_body]
fn node_map_get<'a>(m: &'a AllocNodeMap, key: &AllocId) -> (r: Option<&'a AllocNode>)
    ensures
        r is Some == node_map_contents(*m).dom().contains(id_view(*key)),
        r matches Some(n) ==> n.view_node() == node_map_contents(*m)[id_view(*key)],
{
    m.map.get(key)
}

/// `hashbrown::HashMap::iter`: every entry once, keys with their nodes. The
/// order is the map's own and is not stated.
#[verifier::external_body]
fn node_map_entries<'a>(m: &'a AllocNodeMap) -> (r: Vec<(&'a AllocId, &'a AllocNode)>)
    ensures
        r@.map_values(|e: (&AllocId, &AllocNode)| id_view(*e.0)).no_duplicates(),
        r@.map_values(|e: (&AllocId, &AllocNode)| id_view(*e.0)).to_set() == node_map_contents(*m).dom(),
        forall|i: int| 0 <= i < r@.len() ==> (#[trigger] r@[i]).1.view_node() == node_map_contents(*m)[id_view(*r@[i].0)],
{
    m.map.iter().collect()
}

/// `hashbrown::HashSet::new`: an empty set.
#[verifier::external_body]
fn id_set_new() -> (r: AllocIdSet)
    ensures
        id_set_contents(r) == no_ids(),
{
    AllocIdSet { set: hashbrown::HashSet::new() }
}

/// `hashbrown::HashSet::insert`: returns whether `id` was new.
#[verifier::external_body]
fn id_set_insert(s: &mut AllocIdSet, id: AllocId) -> (r: bool)
    ensures
        id_set_contents(*final(s)) == id_set_contents(*old(s)).insert(id_view(id)),
        r == !id_set_contents(*old(s)).contains(id_view(id)),
{
    s.set.insert(id)
}

/// `hashbrown::HashSet::remove`: returns whether `id` was there.
#[verifier::external_body]
fn id_set_remove(s: &mut AllocIdSet, id: &AllocId) -> (r: bool)
    ensures
        id_set_contents(*final(s)) == id_set_contents(*old(s)).remove(id_view(*id)),
        r == id_set_contents(*old(s)).contains(id_view(*id)),
{
    s.set.remove(id)
}

/// `hashbrown::HashSet::contains`.
#[verifier::external_body]
fn id_set_contains(s: &AllocIdSet, id: &AllocId) -> (r: bool)
    ensures
        r == id_set_contents(*s).contains(id_view(*id)),
{
    s.set.contains(id)
}

/// `hashbrown::HashSet::iter`: every member once, in the set's own order,
/// which is not stated.
#[verifier::external_body]
fn id_set_members(s: &AllocIdSet) -> (r: Vec<AllocId>)
    ensures
        r@.map_values(|id: AllocId| id_view(id)).no_duplicates(),
        r@.map_values(|id: AllocId| id_view(id)).to_set() == id_set_contents(*s),
{
    s.set.iter().copied().collect()
}

impl AllocIdSet {
    /// An empty set.
    pub fn new() -> (r: Self)
        ensures
            id_set_contents(r) == no_ids(),
    {
        id_set_new()
    }

    pub fn contains(&self, id: &AllocId) -> (r: bool)
        ensures
            r == id_set_contents(*self).contains(id_view(*id)),
    {
        id_set_contains(self, id)
    }

    /// Add `id`; returns whether it was new.
    pub fn insert(&mut self, id: AllocId) -> (r: bool)
        ensures
            id_set_contents(*final(self)) == id_set_contents(*old(self)).insert(id_view(id)),
            r == !id_set_contents(*old(self)).contains(id_view(id)),
    {
        id_set_insert(self, id)
    }

    /// Every member once, in an order that is not stated.
    pub fn to_vec(&self) -> (r: Vec<AllocId>)
        ensures
            r@.map_values(|id: AllocId| id_view(id)).no_duplicates(),
            r@.map_values(|id: AllocId| id_view(id)).to_set() == id_set_contents(*self),
    {
        id_set_members(self)
    }
}

/// Whether the node map `g` points from some node to `id`.
pub open spec fn is_child_in(g: Map<(usize, usize), NodeView>, id: (usize, usize)) -> bool {
    exists|k: (usize, usize), j: int|
        g.dom().contains(k) && 0 <= j < g[k].2.len() && (#[trigger] g[k].2[j]).0 == id
}

/// The roots of `g`: its allocations that no node points to.
pub open spec fn roots_spec(g: Map<(usize, usize), NodeView>) -> Set<(usize, usize)> {
    g.dom().filter(|id: (usize, usize)| !is_child_in(g, id))
}

/// The graph of allocations reachable from some allocation.
pub struct AllocGraph {
    graph: AllocNodeMap,
}

impl AllocGraph {
    /// The nodes of the graph, keyed by allocation.
    pub closed spec fn nodes(&self) -> Map<(usize, usize), NodeView> {
        node_map_contents(self.graph)
    }

    /// An empty graph.
    pub fn new() -> (r: Self)
        ensures
            r.nodes() == no_nodes(),
    {
        Self { graph: node_map_new() }
    }

    /// The graph made of the given entries; of two entries for the same
    /// allocation, the later one stays.
    pub fn from_kv_pairs(kv_pairs: Vec<(AllocId, AllocNode)>) -> (r: Self)
        ensures
            r.nodes() == pairs_to_map(pairs_view(kv_pairs@)),
    {
        let ghost pairs = pairs_view(kv_pairs@);
        // Reverse the entries so that popping yields them front first.
        let mut rest = kv_pairs;
        let mut reversed: Vec<(AllocId, AllocNode)> = Vec::new();
        while rest.len() > 0
            invariant
                pairs_view(rest@) + pairs_view(reversed@).reverse() == pairs,
            decreases rest@.len(),
        {
            let ghost before_rest = rest@;
            let ghost before_rev = reversed@;
            let e = rest.pop().unwrap();
            reversed.push(e);
            proof {
                assert(before_rest =~= rest@.push(e));
                assert(reversed@ =~= before_rev.push(e));
                assert(pairs_view(before_rest) =~= pairs_view(rest@).push(pair_view(e)));
                assert(pairs_view(reversed@) =~= pairs_view(before_rev).push(pair_view(e)));
                assert(pairs_view(reversed@).reverse() =~= seq![pair_view(e)] + pairs_view(before_rev).reverse());
                assert(pairs_view(rest@) + pairs_view(reversed@).reverse() =~= pairs_view(before_rest)
                    + pairs_view(before_rev).reverse());
            }
        }
        assert(pairs_view(rest@) =~= Seq::<(IdView, NodeView)>::empty());
        assert(pairs_view(reversed@).reverse() =~= pairs);
        let mut graph = node_map_new();
        let ghost n = pairs.len();
        while reversed.len() > 0
            invariant
                pairs_view(reversed@).reverse() == pairs.skip(n - reversed@.len()),
                reversed@.len() <= n,
                n == pairs.len(),
                node_map_contents(graph) == pairs_to_map(pairs.take(n - reversed@.len())),
            decreases reversed@.len(),
        {
            let ghost before = reversed@;
            let ghost done = n - reversed@.len();
            let e = reversed.pop().unwrap();
            proof {
                assert(before =~= reversed@.push(e));
                lemma_pop_next_pair(pairs, before, reversed@, e, done);
            }
            let (k, v) = e;
            node_map_insert(&mut graph, k, v);
        }
        assert(pairs.take(n as int) =~= pairs);
        Self { graph }
    }

    /// Whether the graph has a node for `id`.
    pub fn contains(&self, id: &AllocId) -> (r: bool)
        ensures
            r == self.nodes().dom().contains(id_view(*id)),
    {
        node_map_contains(&self.graph, id)
    }

    /// The node of `id`, if the graph has one.
    pub fn get(&self, id: &AllocId) -> (r: Option<&AllocNode>)
        ensures
            r is Some == self.nodes().dom().contains(id_view(*id)),
            r matches Some(n) ==> n.view_node() == self.nodes()[id_view(*id)],
    {
        node_map_get(&self.graph, id)
    }

    /// Every entry of the graph once, in an order that is not stated.
    pub fn kv_pairs(&self) -> (r: Vec<(&AllocId, &AllocNode)>)
        ensures
            r@.map_values(|e: (&AllocId, &AllocNode)| id_view(*e.0)).no_duplicates(),
            r@.map_values(|e: (&AllocId, &AllocNode)| id_view(*e.0)).to_set() == self.nodes().dom(),
            forall|i: int| 0 <= i < r@.len() ==> (#[trigger] r@[i]).1.view_node() == self.nodes()[id_view(*r@[i].0)],
    {
        node_map_entries(&self.graph)
    }

    /// Add the node of `alloc_id`, with the bytes read from it and the
    /// pointers found in it, as edges in the order found. Returns the
    /// allocations those pointers point to, in the same order: the ones that
    /// have no node yet are to be visited next.
    pub fn insert_node(&mut self, alloc_id: AllocId, hex_dump: HexDump, ptrs: Vec<PtrMeta>) -> (r: Vec<AllocId>)
        ensures
            final(self).nodes() == old(self).nodes().insert(
                id_view(alloc_id),
                (id_view(alloc_id), hex_dump.bytes(), ptrs@.map_values(|p: PtrMeta| (id_view(p.id), p.address))),
            ),
            r@ == ptrs@.map_values(|p: PtrMeta| p.id),
    {
        let mut children: Vec<AllocEdge> = Vec::new();
        let mut targets: Vec<AllocId> = Vec::new();
        let mut i: usize = 0;
        while i < ptrs.len()
            invariant
                i <= ptrs@.len(),
                edges_view(children@) == ptrs@.take(i as int).map_values(|p: PtrMeta| (id_view(p.id), p.address)),
                targets@ == ptrs@.take(i as int).map_values(|p: PtrMeta| p.id),
            decreases ptrs@.len() - i,
        {
            let p = ptrs[i];
            let ghost before = children@;
            children.push(AllocEdge::new(p));
            targets.push(p.id);
            proof {
                assert(ptrs@.take(i + 1) =~= ptrs@.take(i as int).push(p));
                assert(children@ =~= before.push(AllocEdge::new_spec(p)));
                assert(edges_view(children@) =~= edges_view(before).push((id_view(p.id), p.address)));
                assert(ptrs@.take(i + 1).map_values(|p: PtrMeta| (id_view(p.id), p.address))
                    =~= ptrs@.take(i as int).map_values(|p: PtrMeta| (id_view(p.id), p.address)).push((id_view(p.id), p.address)));
                assert(ptrs@.take(i + 1).map_values(|p: PtrMeta| p.id)
                    =~= ptrs@.take(i as int).map_values(|p: PtrMeta| p.id).push(p.id));
            }
            i = i + 1;
        }
        proof {
            assert(ptrs@.take(ptrs@.len() as int) =~= ptrs@);
        }
        let node = AllocNode::new(alloc_id, hex_dump, children);
        node_map_insert(&mut self.graph, alloc_id, node);
        targets
    }

    /// Get all the root nodes of this graph (that means that they do not appear
    /// as the child of any node). This operation is O(N + E)
    pub fn roots(&self) -> (r: AllocIdSet)
        ensures
            id_set_contents(r) == roots_spec(self.nodes()),
    {
        let ghost g = self.nodes();
        let entries = node_map_entries(&self.graph);
        let ghost keys = entries@.map_values(|e: (&AllocId, &AllocNode)| id_view(*e.0));
        let ghost nv = entries@.map_values(|e: (&AllocId, &AllocNode)| e.1.view_node());
        let mut result = id_set_new();
        let mut i: usize = 0;
        while i < entries.len()
            invariant
                i <= entries@.len(),
                keys == entries@.map_values(|e: (&AllocId, &AllocNode)| id_view(*e.0)),
                id_set_contents(result) == keys.take(i as int).to_set(),
            decreases entries@.len() - i,
        {
            let (k, _) = entries[i];
            id_set_insert(&mut result, *k);
            proof {
                assert(keys.take(i + 1) =~= keys.take(i as int).push(id_view(*k)));
                keys.take(i as int).lemma_push_to_set_commute(id_view(*k));
            }
            i = i + 1;
        }
        proof {
            assert(keys.take(entries@.len() as int) =~= keys);
        }
        let mut i: usize = 0;
        while i < entries.len()
            invariant
                i <= entries@.len(),
                nv == entries@.map_values(|e: (&AllocId, &AllocNode)| e.1.view_node()),
                keys.to_set() == g.dom(),
                forall|id: IdView| #[trigger] id_set_contents(result).contains(id)
                    <==> (g.dom().contains(id) && !pointed_by(nv, i as int, id)),
            decreases entries@.len() - i,
        {
            let (_, node) = entries[i];
            let children = node.children();
            assert(nv[i as int] == node.view_node());
            let mut j: usize = 0;
            while j < children.len()
                invariant
                    i < entries@.len(),
                    j <= children@.len(),
                    nv[i as int].2 == edges_view(children@),
                    forall|id: IdView| #[trigger] id_set_contents(result).contains(id)
                        <==> (g.dom().contains(id) && !pointed_by(nv, i as int, id)
                            && !pointed_within(nv[i as int].2, j as int, id)),
                decreases children@.len() - j,
            {
                id_set_remove(&mut result, children[j].alloc_id());
                proof {
                    assert(nv[i as int].2[j as int].0 == id_view(children@[j as int].ptr_meta_spec().id));
                    assert forall|id: IdView| pointed_within(nv[i as int].2, j + 1, id)
                        == (pointed_within(nv[i as int].2, j as int, id) || id == id_view(children@[j as int].ptr_meta_spec().id)) by {
                        if pointed_within(nv[i as int].2, j + 1, id) {
                            let b = choose|b: int| 0 <= b < j + 1 && (#[trigger] nv[i as int].2[b]).0 == id;
                            if b < j {
                                assert(pointed_within(nv[i as int].2, j as int, id));
                            }
                        }
                        if id == id_view(children@[j as int].ptr_meta_spec().id) {
                            assert(nv[i as int].2[j as int].0 == id);
                        }
                    }
                }
                j = j + 1;
            }
            proof {
                assert forall|id: IdView| pointed_by(nv, i + 1, id)
                    == (pointed_by(nv, i as int, id) || pointed_within(nv[i as int].2, children@.len() as int, id)) by {
                    if pointed_by(nv, i + 1, id) {
                        let (a, b) = choose|a: int, b: int| 0 <= a < i + 1 && 0 <= b < nv[a].2.len() && (#[trigger] nv[a].2[b]).0 == id;
                        if a < i {
                            assert(pointed_by(nv, i as int, id));
                        } else {
                            assert(pointed_within(nv[i as int].2, children@.len() as int, id));
                        }
                    }
                    if pointed_within(nv[i as int].2, children@.len() as int, id) {
                        let b = choose|b: int| 0 <= b < children@.len() && (#[trigger] nv[i as int].2[b]).0 == id;
                        assert(nv[i as int].2[b].0 == id);
                    }
                }
            }
            i = i + 1;
        }
        proof {
            assert forall|id: IdView| pointed_by(nv, entries@.len() as int, id) == is_child_in(g, id) by {
                if pointed_by(nv, entries@.len() as int, id) {
                    let (a, b) = choose|a: int, b: int| 0 <= a < entries@.len() && 0 <= b < nv[a].2.len() && (#[trigger] nv[a].2[b]).0 == id;
                    assert(keys.to_set().contains(keys[a]));
                    assert(nv[a] == g[keys[a]]);
                    assert(g[keys[a]].2[b].0 == id);
                }
                if is_child_in(g, id) {
                    let (k, b) = choose|k: IdView, b: int| g.dom().contains(k) && 0 <= b < g[k].2.len() && (#[trigger] g[k].2[b]).0 == id;
                    assert(keys.to_set().contains(k));
                    let a = choose|a: int| 0 <= a < keys.len() && keys[a] == k;
                    assert(nv[a] == g[k]);
                    assert(nv[a].2[b].0 == id);
                }
            }
            assert(id_set_contents(result) =~= roots_spec(g));
        }
        result
    }
}

/// Some node among the first `upto` of `nv` points to `id`.
pub open spec fn pointed_by(nv: Seq<NodeView>, upto: int, id: IdView) -> bool {
    exists|a: int, b: int| 0 <= a < upto && 0 <= b < nv[a].2.len() && (#[trigger] nv[a].2[b]).0 == id
}

/// One of the first `upto` edges of `edges` points to `id`.
pub open spec fn pointed_within(edges: Seq<EdgeView>, upto: int, id: IdView) -> bool {
    exists|b: int| 0 <= b < upto && (#[trigger] edges[b]).0 == id
}

proof fn lemma_pop_next_pair(
    pairs: Seq<(IdView, NodeView)>,
    before: Seq<(AllocId, AllocNode)>,
    after: Seq<(AllocId, AllocNode)>,
    e: (AllocId, AllocNode),
    done: int,
)
    requires
        0 <= done < pairs.len(),
        before == after.push(e),
        pairs_view(before).reverse() == pairs.skip(done),
    ensures
        pairs_view(after).reverse() == pairs.skip(done + 1),
        pairs[done] == pair_view(e),
        pairs_to_map(pairs.take(done + 1)) == pairs_to_map(pairs.take(done)).insert(pair_view(e).0, pair_view(e).1),
{
    assert(pairs_view(before) =~= pairs_view(after).push(pair_view(e)));
    assert(pairs_view(before).reverse() =~= seq![pair_view(e)] + pairs_view(after).reverse());
    assert(pairs.skip(done)[0] == pair_view(e));
    assert(pairs_view(after).reverse() =~= pairs_view(before).reverse().skip(1));
    assert(pairs.skip(done + 1) =~= pairs.skip(done).skip(1));
    assert(pairs.take(done + 1).drop_last() =~= pairs.take(done));
    assert(pairs.take(done + 1).last() == pairs[done]);
}

/// An entry as a plain value.
pub open spec fn pair_view(p: (AllocId, AllocNode)) -> (IdView, NodeView) {
    (id_view(p.0), p.1.view_node())
}

/// Entries as plain values.
pub open spec fn pairs_view(pairs: Seq<(AllocId, AllocNode)>) -> Seq<(IdView, NodeView)> {
    pairs.map_values(|p: (AllocId, AllocNode)| pair_view(p))
}

/// The map that results from inserting `pairs` in order into an empty map.
pub open spec fn pairs_to_map(pairs: Seq<((usize, usize), NodeView)>) -> Map<(usize, usize), NodeView>
    decreases pairs.len(),
{
    if pairs.len() == 0 {
        Map::empty()
    } else {
        pairs_to_map(pairs.drop_last()).insert(pairs.last().0, pairs.last().1)
    }
}

/// The allocations of a list of entries.
pub open spec fn entry_keys(entries: Seq<(IdView, NodeView)>) -> Seq<IdView> {
    entries.map_values(|e: (IdView, NodeView)| e.0)
}

/// Inserting entries with distinct keys gives the map of exactly those
/// entries.
proof fn lemma_pairs_to_map_distinct(entries: Seq<(IdView, NodeView)>)
    requires
        entry_keys(entries).no_duplicates(),
    ensures
        pairs_to_map(entries).dom() == entry_keys(entries).to_set(),
        forall|i: int| 0 <= i < entries.len() ==> pairs_to_map(entries)[(#[trigger] entries[i]).0] == entries[i].1,
    decreases entries.len(),
{
    if entries.len() > 0 {
        let n = entries.len() - 1;
        let rest = entries.drop_last();
        let keys = entry_keys(entries);
        assert(entry_keys(rest) =~= keys.drop_last());
        assert(keys =~= entry_keys(rest).push(entries[n].0));
        assert(entry_keys(rest).no_duplicates()) by {
            assert forall|a: int, b: int| 0 <= a < b < entry_keys(rest).len() implies entry_keys(rest)[a] != entry_keys(rest)[b] by {
                assert(keys[a] == entry_keys(rest)[a]);
                assert(keys[b] == entry_keys(rest)[b]);
            }
        }
        lemma_pairs_to_map_distinct(rest);
        entry_keys(rest).lemma_push_to_set_commute(entries[n].0);
        assert forall|i: int| 0 <= i < entries.len() implies pairs_to_map(entries)[(#[trigger] entries[i]).0] == entries[i].1 by {
            if i < n {
                assert(keys[i] != keys[n]);
                assert(rest[i] == entries[i]);
            }
        }
    } else {
        assert(entry_keys(entries).to_set() =~= Set::<IdView>::empty());
    }
}

/// Rebuilding a graph from the entries that [`AllocGraph::kv_pairs`] lists
/// gives the same nodes: when `entries` lists every allocation of `g` once,
/// each with its node, inserting them in order as
/// [`AllocGraph::from_kv_pairs`] does yields `g`.
pub proof fn lemma_rebuild_from_entries(g: Map<IdView, NodeView>, entries: Seq<(IdView, NodeView)>)
    requires
        entry_keys(entries).no_duplicates(),
        entry_keys(entries).to_set() == g.dom(),
        forall|i: int| 0 <= i < entries.len() ==> (#[trigger] entries[i]).1 == g[entries[i].0],
    ensures
        pairs_to_map(entries) == g,
{
    lemma_pairs_to_map_distinct(entries);
    assert forall|k: IdView| #[trigger] g.dom().contains(k) implies pairs_to_map(entries)[k] == g[k] by {
        let i = choose|i: int| 0 <= i < entry_keys(entries).len() && entry_keys(entries)[i] == k;
        assert(entries[i].0 == k);
    }
    assert(pairs_to_map(entries) =~= g);
}

} // verus!
