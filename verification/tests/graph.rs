use lhl::graph::layout::{page_base_of, sorted_pages, tree_levels};
use lhl::graph::logical::{AllocEdge, AllocGraph, AllocNode};
use lhl::graph::walk::GraphWalk;
use lhl::heap::tracing::{AllocId, HexDump, PtrMeta};

fn id(ptr: usize) -> AllocId {
    AllocId { ptr, size: 16 }
}

fn ptr_to(target: usize, at: usize) -> PtrMeta {
    PtrMeta { id: id(target), address: at }
}

/// 1 -> 2, 1 -> 3, 3 -> 4, 5 -> 4
fn sample() -> AllocGraph {
    let mut g = AllocGraph::new();
    let next = g.insert_node(id(1), HexDump::new(vec![1]), vec![ptr_to(2, 1), ptr_to(3, 9)]);
    assert_eq!(next, vec![id(2), id(3)]);
    g.insert_node(id(2), HexDump::new(vec![2]), vec![]);
    g.insert_node(id(3), HexDump::new(vec![3]), vec![ptr_to(4, 3)]);
    g.insert_node(id(4), HexDump::new(vec![4]), vec![]);
    g.insert_node(id(5), HexDump::new(vec![5]), vec![ptr_to(4, 5)]);
    g
}

#[test]
fn roots_are_the_nodes_nobody_points_to() {
    let g = sample();
    let roots = g.roots();
    let mut r = roots.to_vec();
    r.sort_by_key(|i| i.ptr);
    assert_eq!(r, vec![id(1), id(5)]);
    assert!(roots.contains(&id(1)));
    assert!(!roots.contains(&id(4)));
}

#[test]
fn nodes_keep_their_pointers() {
    let g = sample();
    assert!(g.contains(&id(3)));
    assert!(!g.contains(&id(6)));
    let n = g.get(&id(3)).unwrap();
    assert_eq!(n.alloc_id(), id(3));
    assert_eq!(n.hex_dump().as_slice(), &[3]);
    assert_eq!(n.children().len(), 1);
    assert_eq!(*n.children()[0].alloc_id(), id(4));
    assert_eq!(n.children()[0].ptr_meta(), ptr_to(4, 3));
    assert_eq!(g.kv_pairs().len(), 5);
}

#[test]
fn later_entries_win() {
    let pairs = vec![
        (id(1), AllocNode::new(id(1), HexDump::new(vec![1]), vec![])),
        (id(1), AllocNode::new(id(1), HexDump::new(vec![9]), vec![AllocEdge::new(ptr_to(2, 0))])),
        (id(2), AllocNode::new(id(2), HexDump::new(vec![2]), vec![])),
    ];
    let g = AllocGraph::from_kv_pairs(pairs);
    assert_eq!(g.kv_pairs().len(), 2);
    assert_eq!(g.get(&id(1)).unwrap().hex_dump().as_slice(), &[9]);
    let roots = g.roots().to_vec();
    assert_eq!(roots, vec![id(1)]);
}

#[test]
fn tree_levels_of_sample() {
    let g = sample();
    let levels = tree_levels(&g);
    // Allocation 4 hangs below 3 or below 5, depending on which root the
    // walk takes first.
    assert!(levels.len() == 2 || levels.len() == 3);
    let mut first = levels[0].clone();
    first.sort_by_key(|i| i.ptr);
    assert_eq!(first, vec![id(1), id(5)]);
    let total: usize = levels.iter().map(|l| l.len()).sum();
    assert_eq!(total, 5);
    for l in &levels {
        assert!(!l.is_empty());
    }
}

#[test]
fn tree_levels_of_a_chain() {
    let mut g = AllocGraph::new();
    g.insert_node(id(1), HexDump::new(vec![]), vec![ptr_to(2, 1)]);
    g.insert_node(id(2), HexDump::new(vec![]), vec![ptr_to(3, 2)]);
    g.insert_node(id(3), HexDump::new(vec![]), vec![]);
    assert_eq!(tree_levels(&g), vec![vec![id(1)], vec![id(2)], vec![id(3)]]);
}

#[test]
fn tree_levels_without_roots_is_empty() {
    let mut g = AllocGraph::new();
    g.insert_node(id(1), HexDump::new(vec![]), vec![ptr_to(2, 1)]);
    g.insert_node(id(2), HexDump::new(vec![]), vec![ptr_to(1, 2)]);
    assert!(tree_levels(&g).is_empty());
}

#[test]
fn page_bases() {
    assert_eq!(page_base_of(0x1234), 0x1000);
    assert_eq!(page_base_of(0x1000), 0x1000);
    assert_eq!(page_base_of(0xfff), 0);
    let mut g = AllocGraph::new();
    g.insert_node(id(0x5010), HexDump::new(vec![]), vec![]);
    g.insert_node(id(0x1010), HexDump::new(vec![]), vec![]);
    g.insert_node(id(0x5020), HexDump::new(vec![]), vec![]);
    g.insert_node(id(0x3000), HexDump::new(vec![]), vec![]);
    assert_eq!(sorted_pages(&g), vec![0x1000, 0x3000, 0x5000]);
}

/// The pointers "read" from allocation `p` of a small heap:
/// 1 -> 2, 1 -> 3, 2 -> 3, 3 -> 3, 4 -> 1 (4 is not reachable from 1).
fn heap_pointers(p: usize) -> Vec<PtrMeta> {
    match p {
        1 => vec![ptr_to(2, 1), ptr_to(3, 9)],
        2 => vec![ptr_to(3, 2)],
        3 => vec![ptr_to(3, 3)],
        4 => vec![ptr_to(1, 4)],
        5 => vec![ptr_to(6, 5)],
        6 => vec![ptr_to(5, 6)],
        _ => vec![],
    }
}

#[test]
fn graph_walk_visits_depth_first_once_each() {
    let mut walk = GraphWalk::start(id(1));
    let mut order = Vec::new();
    while let Some(next) = walk.next_to_read() {
        order.push(next.ptr);
        walk.record(next, HexDump::new(vec![next.ptr as u8]), heap_pointers(next.ptr));
    }
    assert_eq!(order, vec![1, 2, 3]);
    let g = walk.into_graph();
    assert!(g.contains(&id(1)) && g.contains(&id(2)) && g.contains(&id(3)));
    assert!(!g.contains(&id(4)));
    let children: Vec<AllocId> = g.get(&id(2)).unwrap().children().iter().map(|e| *e.alloc_id()).collect();
    assert_eq!(children, vec![id(3)]);
    // The walk's graph is closed, so it can be laid out as a tree.
    let mut levels = tree_levels(&g);
    assert_eq!(levels.len(), 2);
    assert_eq!(levels[0], vec![id(1)]);
    levels[1].sort_by_key(|i| i.ptr);
    assert_eq!(levels[1], vec![id(2), id(3)]);
}

#[test]
fn graph_walk_of_a_leaf() {
    let mut walk = GraphWalk::start(id(7));
    assert_eq!(walk.next_to_read(), Some(id(7)));
    assert_eq!(walk.next_to_read(), Some(id(7)));
    walk.record(id(7), HexDump::new(vec![]), vec![]);
    assert_eq!(walk.next_to_read(), None);
    assert!(walk.into_graph().contains(&id(7)));
}

#[test]
fn graph_walk_stops_on_cycles() {
    let mut walk = GraphWalk::start(id(5));
    let mut order = Vec::new();
    while let Some(next) = walk.next_to_read() {
        order.push(next.ptr);
        walk.record(next, HexDump::new(vec![]), heap_pointers(next.ptr));
    }
    assert_eq!(order, vec![5, 6]);
}

#[test]
fn rebuilding_from_listed_entries_gives_the_same_graph() {
    let g = sample();
    let owned: Vec<(AllocId, AllocNode)> = g
        .kv_pairs()
        .into_iter()
        .map(|(k, v)| (*k, AllocNode::new(v.alloc_id(), v.hex_dump().clone(), v.children().clone())))
        .collect();
    assert_eq!(owned.len(), 5);
    let h = AllocGraph::from_kv_pairs(owned);
    for p in 1..=5 {
        let a = g.get(&id(p)).unwrap();
        let b = h.get(&id(p)).unwrap();
        assert_eq!(a.alloc_id(), b.alloc_id());
        assert_eq!(a.hex_dump().as_slice(), b.hex_dump().as_slice());
        let ca: Vec<PtrMeta> = a.children().iter().map(|e| e.ptr_meta()).collect();
        let cb: Vec<PtrMeta> = b.children().iter().map(|e| e.ptr_meta()).collect();
        assert_eq!(ca, cb);
    }
    assert!(!h.contains(&id(6)));
}

#[test]
fn closed_graphs_are_recognised() {
    assert!(sample().is_closed());
    assert!(AllocGraph::new().is_closed());
    let mut g = AllocGraph::new();
    g.insert_node(id(1), HexDump::new(vec![]), vec![ptr_to(2, 1)]);
    assert!(!g.is_closed());
    g.insert_node(id(2), HexDump::new(vec![]), vec![]);
    assert!(g.is_closed());
}

#[test]
fn tree_levels_keep_children_in_blocks() {
    // 1 -> 2, 1 -> 3, 2 -> 4, 2 -> 5, 3 -> 6
    let mut g = AllocGraph::new();
    g.insert_node(id(1), HexDump::new(vec![]), vec![ptr_to(2, 1), ptr_to(3, 9)]);
    g.insert_node(id(2), HexDump::new(vec![]), vec![ptr_to(4, 2), ptr_to(5, 10)]);
    g.insert_node(id(3), HexDump::new(vec![]), vec![ptr_to(6, 3)]);
    for p in 4..=6 {
        g.insert_node(id(p), HexDump::new(vec![]), vec![]);
    }
    let levels = tree_levels(&g);
    assert_eq!(levels, vec![vec![id(1)], vec![id(3), id(2)], vec![id(6), id(5), id(4)]]);
}
