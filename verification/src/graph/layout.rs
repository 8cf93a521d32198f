//! Arranging the allocation graph in levels for drawing it as a tree: the
//! roots first, then, level by level, allocations that the level above
//! points to.
use vstd::prelude::*;

verus! {

use vstd::pervasive::VecAdditionalExecFns;
use crate::graph::logical::{
    AllocGraph, AllocIdSet, IdView, NodeView, id_set_contents, id_view, roots_spec,
};
use crate::heap::tracing::AllocId;

/// The allocation at row `l`, column `m` of `levels`.
pub open spec fn at(levels: Seq<Vec<AllocId>>, l: int, m: int) -> IdView {
    id_view(levels[l]@[m])
}

/// Whether row `l`, column `m` lies inside `levels`.
pub open spec fn valid_pos(levels: Seq<Vec<AllocId>>, l: int, m: int) -> bool {
    0 <= l < levels.len() && 0 <= m < levels[l]@.len()
}

/// Whether the node `p` of `g` points to `c`.
pub open spec fn is_child_of(g: Map<IdView, NodeView>, p: IdView, c: IdView) -> bool {
    exists|j: int| 0 <= j < g[p].2.len() && (#[trigger] g[p].2[j]).0 == c
}

/// Whether `id` appears somewhere in `levels`.
pub open spec fn listed(levels: Seq<Vec<AllocId>>, id: IdView) -> bool {
    exists|l: int, m: int| valid_pos(levels, l, m) && #[trigger] at(levels, l, m) == id
}

/// Every edge of `g` points to a node of `g`.
pub open spec fn closed_graph(g: Map<IdView, NodeView>) -> bool {
    forall|k: IdView, j: int|
        g.dom().contains(k) && 0 <= j < g[k].2.len() ==> g.dom().contains((#[trigger] g[k].2[j]).0)
}

/// `levels` lays out the part of `g` reachable from its roots as a tree:
/// every allocation appears once; the first level holds exactly the roots;
/// every allocation below the first level is pointed to by one in the level
/// above; everything a listed allocation points to is listed; no level is
/// empty.
pub open spec fn is_tree_layout(g: Map<IdView, NodeView>, levels: Seq<Vec<AllocId>>) -> bool {
    &&& forall|l: int, m: int| valid_pos(levels, l, m) ==> g.dom().contains(#[trigger] at(levels, l, m))
    &&& forall|l1: int, m1: int, l2: int, m2: int|
        valid_pos(levels, l1, m1) && valid_pos(levels, l2, m2) && #[trigger] at(levels, l1, m1) == #[trigger] at(levels, l2, m2)
            ==> l1 == l2 && m1 == m2
    &&& forall|l: int| 0 <= l < levels.len() ==> (#[trigger] levels[l])@.len() > 0
    &&& forall|m: int| valid_pos(levels, 0, m) ==> roots_spec(g).contains(#[trigger] at(levels, 0, m))
    &&& forall|r: IdView| roots_spec(g).contains(r) ==> exists|m: int| valid_pos(levels, 0, m) && #[trigger] at(levels, 0, m) == r
    &&& forall|l: int, m: int| valid_pos(levels, l, m) && l > 0 ==>
        exists|m2: int| valid_pos(levels, l - 1, m2) && is_child_of(g, #[trigger] at(levels, l - 1, m2), at(levels, l, m))
    &&& forall|l: int, m: int, c: IdView| valid_pos(levels, l, m) && #[trigger] is_child_of(g, at(levels, l, m), c) ==> listed(levels, c)
}

/// What the arrangement loop keeps, with `pos` giving the place of every
/// visited allocation and `par` the place of the parent of every stack entry
/// above the first level.
pub open spec fn layout_progress(
    g: Map<IdView, NodeView>,
    levels: Seq<Vec<AllocId>>,
    pos: Map<IdView, (int, int)>,
    stack: Seq<(AllocId, usize)>,
    par: Seq<(int, int)>,
) -> bool {
    &&& levels_placed(g, levels, pos)
    &&& stack_ok(g, levels, stack, par)
    &&& forall|r: IdView| #[trigger] roots_spec(g).contains(r) ==> pos.dom().contains(r) || on_stack(stack, r)
    &&& forall|l: int, m: int, c: IdView| valid_pos(levels, l, m) && #[trigger] is_child_of(g, at(levels, l, m), c)
        ==> pos.dom().contains(c) || on_stack(stack, c)
}

/// What holds of the levels laid out so far.
pub open spec fn levels_placed(
    g: Map<IdView, NodeView>,
    levels: Seq<Vec<AllocId>>,
    pos: Map<IdView, (int, int)>,
) -> bool {
    &&& forall|id: IdView| #[trigger] pos.dom().contains(id) ==> valid_pos(levels, pos[id].0, pos[id].1)
        && at(levels, pos[id].0, pos[id].1) == id
    &&& forall|l: int, m: int| valid_pos(levels, l, m) ==> pos.dom().contains(#[trigger] at(levels, l, m))
        && pos[at(levels, l, m)] == (l, m)
    &&& forall|l: int, m: int| valid_pos(levels, l, m) ==> g.dom().contains(#[trigger] at(levels, l, m))
    &&& forall|l: int| 0 <= l < levels.len() ==> (#[trigger] levels[l])@.len() > 0
    &&& forall|m: int| valid_pos(levels, 0, m) ==> roots_spec(g).contains(#[trigger] at(levels, 0, m))
    &&& forall|r: IdView| #[trigger] roots_spec(g).contains(r) && pos.dom().contains(r) ==> pos[r].0 == 0
    &&& forall|l: int, m: int| valid_pos(levels, l, m) && l > 0 ==>
        exists|m2: int| valid_pos(levels, l - 1, m2) && is_child_of(g, #[trigger] at(levels, l - 1, m2), at(levels, l, m))
}

/// What holds of every entry of the walk's stack.
pub open spec fn stack_ok(
    g: Map<IdView, NodeView>,
    levels: Seq<Vec<AllocId>>,
    stack: Seq<(AllocId, usize)>,
    par: Seq<(int, int)>,
) -> bool {
    &&& par.len() == stack.len()
    &&& forall|i: int| 0 <= i < stack.len() ==> entry_ok(g, levels, #[trigger] stack[i], par[i])
}

/// A stack entry: an allocation of `g` at a level that exists or is the
/// next one; a root at the first level; below it, a child of the allocation
/// at `parent`, on the level above.
pub open spec fn entry_ok(
    g: Map<IdView, NodeView>,
    levels: Seq<Vec<AllocId>>,
    entry: (AllocId, usize),
    parent: (int, int),
) -> bool {
    &&& g.dom().contains(id_view(entry.0))
    &&& entry.1 <= levels.len()
    &&& entry.1 == 0 ==> roots_spec(g).contains(id_view(entry.0))
    &&& entry.1 > 0 ==> parent.0 == entry.1 - 1 && valid_pos(levels, parent.0, parent.1)
        && is_child_of(g, at(levels, parent.0, parent.1), id_view(entry.0))
}

/// Whether `id` has an entry on `stack`.
pub open spec fn on_stack(stack: Seq<(AllocId, usize)>, id: IdView) -> bool {
    exists|i: int| 0 <= i < stack.len() && id_view((#[trigger] stack[i]).0) == id
}

/// A node that some node of `g` points to is no root.
proof fn lemma_child_is_no_root(g: Map<IdView, NodeView>, p: IdView, c: IdView)
    requires
        g.dom().contains(p),
        is_child_of(g, p, c),
    ensures
        !roots_spec(g).contains(c),
{
    let j = choose|j: int| 0 <= j < g[p].2.len() && (#[trigger] g[p].2[j]).0 == c;
    assert(g[p].2[j].0 == c);
    assert(crate::graph::logical::is_child_in(g, c));
}

/// Dropping the top of the stack keeps the walk's invariant when the
/// dropped allocation was already visited.
proof fn lemma_pop_visited(
    g: Map<IdView, NodeView>,
    levels: Seq<Vec<AllocId>>,
    pos: Map<IdView, (int, int)>,
    stack: Seq<(AllocId, usize)>,
    par: Seq<(int, int)>,
)
    requires
        stack.len() > 0,
        layout_progress(g, levels, pos, stack, par),
        pos.dom().contains(id_view(stack.last().0)),
    ensures
        layout_progress(g, levels, pos, stack.drop_last(), par.drop_last()),
{
    let s2 = stack.drop_last();
    let p2 = par.drop_last();
    assert forall|i: int| 0 <= i < s2.len() implies entry_ok(g, levels, #[trigger] s2[i], p2[i]) by {
        assert(s2[i] == stack[i]);
        assert(p2[i] == par[i]);
    }
    assert forall|c: IdView| on_stack(stack, c) && !pos.dom().contains(c) implies on_stack(s2, c) by {
        let i = choose|i: int| 0 <= i < stack.len() && id_view((#[trigger] stack[i]).0) == c;
        if i == stack.len() - 1 {
            assert(false);
        }
        assert(s2[i] == stack[i]);
    }
}

/// `new_levels` is `levels` with `id` appended to level `level` (a new
/// level when `level` is one past the last), at column `m`.
pub open spec fn appended(
    levels: Seq<Vec<AllocId>>,
    new_levels: Seq<Vec<AllocId>>,
    level: int,
    m: int,
    id: AllocId,
) -> bool {
    &&& 0 <= level <= levels.len()
    &&& new_levels.len() == if level < levels.len() { levels.len() } else { levels.len() + 1 }
    &&& m == if level < levels.len() { levels[level]@.len() as int } else { 0 }
    &&& new_levels[level]@ == (if level < levels.len() { levels[level]@ } else { Seq::empty() }).push(id)
    &&& forall|l: int| 0 <= l < levels.len() && l != level ==> new_levels[l] == levels[l]
}

proof fn lemma_appended_positions(
    levels: Seq<Vec<AllocId>>,
    new_levels: Seq<Vec<AllocId>>,
    level: int,
    m: int,
    id: AllocId,
)
    requires
        appended(levels, new_levels, level, m, id),
    ensures
        forall|l: int, k: int| #[trigger] valid_pos(new_levels, l, k)
            <==> valid_pos(levels, l, k) || (l == level && k == m),
        forall|l: int, k: int| valid_pos(levels, l, k) ==> #[trigger] at(new_levels, l, k) == at(levels, l, k),
        at(new_levels, level, m) == id_view(id),
        valid_pos(new_levels, level, m),
{
    assert forall|l: int, k: int| valid_pos(levels, l, k) implies #[trigger] at(new_levels, l, k) == at(levels, l, k) by {
        if l == level {
            assert(new_levels[l]@[k] == levels[l]@[k]);
        }
    }
}

/// Visiting the allocation on top of the stack at place (`level`, `m`) and
/// pushing the allocations it points to keeps the walk's invariant.
proof fn lemma_visit(
    g: Map<IdView, NodeView>,
    levels: Seq<Vec<AllocId>>,
    new_levels: Seq<Vec<AllocId>>,
    pos: Map<IdView, (int, int)>,
    stack: Seq<(AllocId, usize)>,
    par: Seq<(int, int)>,
    id: AllocId,
    level: usize,
    m: int,
    kids: Seq<AllocId>,
)
    requires
        closed_graph(g),
        layout_progress(g, levels, pos, stack, par),
        stack.len() > 0,
        stack.last() == (id, level),
        !pos.dom().contains(id_view(id)),
        appended(levels, new_levels, level as int, m, id),
        kids.len() == g[id_view(id)].2.len(),
        forall|j: int| 0 <= j < kids.len() ==> id_view(#[trigger] kids[j]) == g[id_view(id)].2[j].0,
        level + 1 <= usize::MAX,
    ensures
        layout_progress(
            g,
            new_levels,
            pos.insert(id_view(id), (level as int, m)),
            stack.drop_last() + kids.map_values(|k: AllocId| (k, (level + 1) as usize)),
            par.drop_last() + Seq::new(kids.len(), |j: int| (level as int, m)),
        ),
{
    let iv = id_view(id);
    let pos2 = pos.insert(iv, (level as int, m));
    let s0 = stack.drop_last();
    let p0 = par.drop_last();
    let pushed = kids.map_values(|k: AllocId| (k, (level + 1) as usize));
    let s2 = s0 + pushed;
    let p2 = p0 + Seq::new(kids.len(), |j: int| (level as int, m));
    lemma_appended_positions(levels, new_levels, level as int, m, id);
    let parent = par.last();
    assert(entry_ok(g, levels, stack[stack.len() - 1], par[stack.len() - 1]));
    assert(g.dom().contains(iv));
    // The levels.
    assert forall|x: IdView| #[trigger] pos2.dom().contains(x) implies valid_pos(new_levels, pos2[x].0, pos2[x].1)
        && at(new_levels, pos2[x].0, pos2[x].1) == x by {
        if x != iv {
            assert(pos.dom().contains(x));
        }
    }
    assert forall|l: int, k: int| valid_pos(new_levels, l, k) implies pos2.dom().contains(#[trigger] at(new_levels, l, k))
        && pos2[at(new_levels, l, k)] == (l, k) by {
        if !(l == level && k == m) {
            assert(valid_pos(levels, l, k));
            assert(pos.dom().contains(at(levels, l, k)));
        }
    }
    assert forall|l: int, k: int| valid_pos(new_levels, l, k) implies g.dom().contains(#[trigger] at(new_levels, l, k)) by {
        if !(l == level && k == m) {
            assert(valid_pos(levels, l, k));
            assert(g.dom().contains(at(levels, l, k)));
        }
    }
    assert forall|l: int| 0 <= l < new_levels.len() implies (#[trigger] new_levels[l])@.len() > 0 by {
        if l != level {
            assert(levels[l]@.len() > 0);
        }
    }
    assert forall|k: int| valid_pos(new_levels, 0, k) implies roots_spec(g).contains(#[trigger] at(new_levels, 0, k)) by {
        if !(0 == level && k == m) {
            assert(valid_pos(levels, 0, k));
            assert(roots_spec(g).contains(at(levels, 0, k)));
        }
    }
    assert forall|r: IdView| #[trigger] roots_spec(g).contains(r) && pos2.dom().contains(r) implies pos2[r].0 == 0 by {
        if r == iv && level > 0 {
            lemma_child_is_no_root(g, at(levels, parent.0, parent.1), iv);
        }
    }
    assert forall|l: int, k: int| valid_pos(new_levels, l, k) && l > 0 implies
        exists|m2: int| valid_pos(new_levels, l - 1, m2) && is_child_of(g, #[trigger] at(new_levels, l - 1, m2), at(new_levels, l, k)) by {
        if l == level && k == m {
            assert(valid_pos(new_levels, l - 1, parent.1));
            assert(at(new_levels, l - 1, parent.1) == at(levels, parent.0, parent.1));
        } else {
            assert(valid_pos(levels, l, k));
            let m2 = choose|m2: int| valid_pos(levels, l - 1, m2) && is_child_of(g, #[trigger] at(levels, l - 1, m2), at(levels, l, k));
            assert(valid_pos(new_levels, l - 1, m2));
            assert(at(new_levels, l - 1, m2) == at(levels, l - 1, m2));
        }
    }
    assert(levels_placed(g, new_levels, pos2));
    // The stack.
    assert forall|i: int| 0 <= i < s2.len() implies entry_ok(g, new_levels, #[trigger] s2[i], p2[i]) by {
        if i < s0.len() {
            assert(s2[i] == stack[i]);
            assert(p2[i] == par[i]);
            assert(entry_ok(g, levels, stack[i], par[i]));
            if stack[i].1 > 0 {
                assert(at(new_levels, par[i].0, par[i].1) == at(levels, par[i].0, par[i].1));
            }
        } else {
            let j = i - s0.len();
            assert(s2[i] == (kids[j], (level + 1) as usize));
            assert(p2[i] == (level as int, m));
            assert(g[iv].2[j].0 == id_view(kids[j]));
            assert(g.dom().contains(id_view(kids[j])));
            assert(is_child_of(g, at(new_levels, level as int, m), id_view(kids[j])));
        }
    }
    assert(stack_ok(g, new_levels, s2, p2));
    // What is covered.
    assert forall|c: IdView| on_stack(stack, c) && !pos2.dom().contains(c) implies on_stack(s2, c) by {
        let i = choose|i: int| 0 <= i < stack.len() && id_view((#[trigger] stack[i]).0) == c;
        if i == stack.len() - 1 {
            assert(false);
        }
        assert(s2[i] == stack[i]);
    }
    assert forall|r: IdView| #[trigger] roots_spec(g).contains(r) implies pos2.dom().contains(r) || on_stack(s2, r) by {
        if !pos2.dom().contains(r) {
            assert(pos.dom().contains(r) || on_stack(stack, r));
        }
    }
    assert forall|l: int, k: int, c: IdView| valid_pos(new_levels, l, k) && #[trigger] is_child_of(g, at(new_levels, l, k), c)
        implies pos2.dom().contains(c) || on_stack(s2, c) by {
        if l == level && k == m {
            let j = choose|j: int| 0 <= j < g[iv].2.len() && (#[trigger] g[iv].2[j]).0 == c;
            assert(s2[s0.len() + j] == (kids[j], (level + 1) as usize));
            assert(id_view(s2[s0.len() + j].0) == c);
        } else {
            assert(valid_pos(levels, l, k));
            assert(is_child_of(g, at(levels, l, k), c));
            if !pos2.dom().contains(c) {
                assert(pos.dom().contains(c) || on_stack(stack, c));
            }
        }
    }
}

/// When the stack is empty, the levels are a tree layout.
proof fn lemma_walk_done(g: Map<IdView, NodeView>, levels: Seq<Vec<AllocId>>, pos: Map<IdView, (int, int)>)
    requires
        layout_progress(g, levels, pos, Seq::empty(), Seq::empty()),
    ensures
        is_tree_layout(g, levels),
{
    assert forall|l1: int, m1: int, l2: int, m2: int|
        valid_pos(levels, l1, m1) && valid_pos(levels, l2, m2) && #[trigger] at(levels, l1, m1) == #[trigger] at(levels, l2, m2)
        implies l1 == l2 && m1 == m2 by {
        assert(pos[at(levels, l1, m1)] == (l1, m1));
        assert(pos[at(levels, l2, m2)] == (l2, m2));
    }
    assert forall|r: IdView| roots_spec(g).contains(r) implies exists|m: int| valid_pos(levels, 0, m) && #[trigger] at(levels, 0, m) == r by {
        assert(pos.dom().contains(r) || on_stack(Seq::<(AllocId, usize)>::empty(), r));
        assert(pos.dom().contains(r));
        let (l, m) = pos[r];
        assert(valid_pos(levels, l, m) && at(levels, l, m) == r);
        assert(l == 0);
    }
    assert forall|l: int, m: int, c: IdView| valid_pos(levels, l, m) && #[trigger] is_child_of(g, at(levels, l, m), c)
        implies listed(levels, c) by {
        assert(pos.dom().contains(c) || on_stack(Seq::<(AllocId, usize)>::empty(), c));
        assert(pos.dom().contains(c));
        let (l2, m2) = pos[c];
        assert(valid_pos(levels, l2, m2) && at(levels, l2, m2) == c);
    }
}

/// `parent` picks, for every allocation below the first level, the column
/// of an allocation on the level above that points to it, and along every
/// level these columns never decrease: the children of one allocation stand
/// in one block, and the blocks follow the order of their parents.
pub open spec fn children_in_blocks(
    g: Map<IdView, NodeView>,
    levels: Seq<Vec<AllocId>>,
    parent: Map<(int, int), int>,
) -> bool {
    &&& forall|l: int, m: int| #[trigger] valid_pos(levels, l, m) && l > 0 ==> parent.dom().contains((l, m))
        && valid_pos(levels, l - 1, parent[(l, m)]) && is_child_of(g, at(levels, l - 1, parent[(l, m)]), at(levels, l, m))
    &&& forall|l: int, m1: int, m2: int| 0 <= m1 < m2 && l > 0 && valid_pos(levels, l, m2)
        ==> #[trigger] parent[(l, m1)] <= #[trigger] parent[(l, m2)]
}

/// The shape of the walk's stack: levels never decrease towards the top,
/// and every entry below the first level was pushed by the allocation last
/// placed on the level above it.
pub open spec fn stack_shape(levels: Seq<Vec<AllocId>>, stack: Seq<(AllocId, usize)>, par: Seq<(int, int)>) -> bool {
    &&& forall|i: int, j: int| 0 <= i < j < stack.len() ==> (#[trigger] stack[i]).1 <= (#[trigger] stack[j]).1
    &&& forall|i: int| 0 <= i < stack.len() && (#[trigger] stack[i]).1 > 0 ==> par[i].1 == levels[par[i].0]@.len() - 1
}

/// Dropping a visited allocation from the top of the stack keeps its shape.
proof fn lemma_shape_pop(levels: Seq<Vec<AllocId>>, stack: Seq<(AllocId, usize)>, par: Seq<(int, int)>)
    requires
        stack.len() > 0,
        par.len() == stack.len(),
        stack_shape(levels, stack, par),
    ensures
        stack_shape(levels, stack.drop_last(), par.drop_last()),
{
    let s2 = stack.drop_last();
    assert forall|i: int, j: int| 0 <= i < j < s2.len() implies (#[trigger] s2[i]).1 <= (#[trigger] s2[j]).1 by {
        assert(s2[i] == stack[i] && s2[j] == stack[j]);
    }
    assert forall|i: int| 0 <= i < s2.len() && (#[trigger] s2[i]).1 > 0 implies par.drop_last()[i].1
        == levels[par.drop_last()[i].0]@.len() - 1 by {
        assert(s2[i] == stack[i]);
    }
}

/// Placing the allocation on top of the stack at (`level`, `m`) and pushing
/// its children keeps the children in blocks and the stack's shape.
proof fn lemma_visit_blocks(
    g: Map<IdView, NodeView>,
    levels: Seq<Vec<AllocId>>,
    new_levels: Seq<Vec<AllocId>>,
    pos: Map<IdView, (int, int)>,
    stack: Seq<(AllocId, usize)>,
    par: Seq<(int, int)>,
    parent: Map<(int, int), int>,
    id: AllocId,
    level: usize,
    m: int,
    kids: Seq<AllocId>,
)
    requires
        layout_progress(g, levels, pos, stack, par),
        stack_shape(levels, stack, par),
        children_in_blocks(g, levels, parent),
        stack.len() > 0,
        stack.last() == (id, level),
        appended(levels, new_levels, level as int, m, id),
        level + 1 <= usize::MAX,
    ensures
        children_in_blocks(
            g,
            new_levels,
            if level > 0 { parent.insert((level as int, m), par.last().1) } else { parent },
        ),
        stack_shape(
            new_levels,
            stack.drop_last() + kids.map_values(|k: AllocId| (k, (level + 1) as usize)),
            par.drop_last() + Seq::new(kids.len(), |j: int| (level as int, m)),
        ),
{
    lemma_appended_positions(levels, new_levels, level as int, m, id);
    let top = stack.len() - 1;
    assert(entry_ok(g, levels, stack[top], par[top]));
    let p2 = if level > 0 { parent.insert((level as int, m), par.last().1) } else { parent };
    assert forall|l: int, k: int| #[trigger] valid_pos(new_levels, l, k) && l > 0 implies p2.dom().contains((l, k))
        && valid_pos(new_levels, l - 1, p2[(l, k)]) && is_child_of(g, at(new_levels, l - 1, p2[(l, k)]), at(new_levels, l, k)) by {
        if l == level && k == m {
            assert(at(new_levels, l - 1, par[top].1) == at(levels, par[top].0, par[top].1));
        } else {
            assert(valid_pos(levels, l, k));
            assert(valid_pos(levels, l - 1, parent[(l, k)]));
        }
    }
    assert forall|l: int, m1: int, m2: int| 0 <= m1 < m2 && l > 0 && valid_pos(new_levels, l, m2)
        implies #[trigger] p2[(l, m1)] <= #[trigger] p2[(l, m2)] by {
        if l == level && m2 == m {
            assert(valid_pos(levels, l, m1));
            assert(valid_pos(levels, l - 1, parent[(l, m1)]));
            assert(par[top].1 == levels[par[top].0]@.len() - 1);
        } else {
            assert(valid_pos(levels, l, m2));
        }
    }
    let s0 = stack.drop_last();
    let s2 = s0 + kids.map_values(|k: AllocId| (k, (level + 1) as usize));
    let pr2 = par.drop_last() + Seq::new(kids.len(), |j: int| (level as int, m));
    assert forall|i: int, j: int| 0 <= i < j < s2.len() implies (#[trigger] s2[i]).1 <= (#[trigger] s2[j]).1 by {
        if j < s0.len() {
            assert(s2[i] == stack[i] && s2[j] == stack[j]);
        } else if i < s0.len() {
            assert(s2[i] == stack[i]);
            assert(stack[i].1 <= stack[top].1);
        }
    }
    assert forall|i: int| 0 <= i < s2.len() && (#[trigger] s2[i]).1 > 0 implies pr2[i].1
        == new_levels[pr2[i].0]@.len() - 1 by {
        if i < s0.len() {
            assert(s2[i] == stack[i]);
            assert(pr2[i] == par[i]);
            assert(entry_ok(g, levels, stack[i], par[i]));
            assert(stack[i].1 <= stack[top].1);
            assert(par[i].0 != level);
            assert(new_levels[par[i].0] == levels[par[i].0]);
        }
    }
}

impl AllocGraph {
    /// Whether every pointer of the graph leads to a node of it, which
    /// [`tree_levels`] needs.
    pub fn is_closed(&self) -> (r: bool)
        ensures
            r == closed_graph(self.nodes()),
    {
        let ghost g = self.nodes();
        let entries = self.kv_pairs();
        let ghost keys = entries@.map_values(|e: (&AllocId, &crate::graph::logical::AllocNode)| id_view(*e.0));
        let mut i: usize = 0;
        while i < entries.len()
            invariant
                i <= entries@.len(),
                g == self.nodes(),
                keys == entries@.map_values(|e: (&AllocId, &crate::graph::logical::AllocNode)| id_view(*e.0)),
                keys.to_set() == g.dom(),
                forall|a: int| 0 <= a < entries@.len() ==> (#[trigger] entries@[a]).1.view_node() == g[id_view(*entries@[a].0)],
                forall|a: int, j: int| 0 <= a < i && 0 <= j < g[keys[a]].2.len() ==> g.dom().contains(
                    (#[trigger] g[keys[a]].2[j]).0,
                ),
            decreases entries@.len() - i,
        {
            let (k, node) = entries[i];
            let children = node.children();
            proof {
                assert(keys[i as int] == id_view(*k));
                assert(node.view_node() == g[id_view(*k)]);
                assert(keys.contains(keys[i as int]));
                assert(keys.to_set().contains(keys[i as int]));
            }
            let mut j: usize = 0;
            while j < children.len()
                invariant
                    j <= children@.len(),
                    i < entries@.len(),
                    g == self.nodes(),
                    keys[i as int] == id_view(*k),
                    g.dom().contains(id_view(*k)),
                    g[id_view(*k)].2 == crate::graph::logical::edges_view(children@),
                    forall|b: int| 0 <= b < j ==> g.dom().contains((#[trigger] g[id_view(*k)].2[b]).0),
                decreases children@.len() - j,
            {
                let target = children[j].alloc_id();
                proof {
                    assert(g[id_view(*k)].2[j as int].0 == id_view(*target));
                }
                if !self.contains(target) {
                    proof {
                        assert(!g.dom().contains(g[id_view(*k)].2[j as int].0));
                        assert(!closed_graph(g));
                    }
                    return false;
                }
                j = j + 1;
            }
            i = i + 1;
        }
        proof {
            assert forall|key: IdView, j: int| g.dom().contains(key) && 0 <= j < g[key].2.len()
                implies g.dom().contains((#[trigger] g[key].2[j]).0) by {
                assert(keys.to_set().contains(key));
                let a = choose|a: int| 0 <= a < keys.len() && keys[a] == key;
                assert(g.dom().contains(g[keys[a]].2[j].0));
            }
        }
        true
    }
}

/// Lay out the allocations reachable from the roots of `graph` in levels,
/// for drawing the graph as a tree: a depth-first walk from the roots puts
/// every allocation one level below the allocation it was first reached
/// from.
pub fn tree_levels(graph: &AllocGraph) -> (levels: Vec<Vec<AllocId>>)
    requires
        closed_graph(graph.nodes()),
    ensures
        is_tree_layout(graph.nodes(), levels@),
        exists|parent: Map<(int, int), int>| children_in_blocks(graph.nodes(), levels@, parent),
{
    let ghost g = graph.nodes();
    let entries = graph.kv_pairs();
    proof {
        let keys = entries@.map_values(|e: (&AllocId, &crate::graph::logical::AllocNode)| id_view(*e.0));
        vstd::seq_lib::seq_to_set_is_finite(keys);
    }
    let roots = graph.roots();
    let root_list = roots.to_vec();
    let mut unvisited: Vec<(AllocId, usize)> = Vec::new();
    let ghost mut par: Seq<(int, int)> = Seq::empty();
    let mut k: usize = 0;
    while k < root_list.len()
        invariant
            k <= root_list@.len(),
            g == graph.nodes(),
            root_list@.map_values(|id: AllocId| id_view(id)).to_set() == roots_spec(g),
            unvisited@.len() == k,
            par.len() == k,
            forall|i: int| 0 <= i < k ==> #[trigger] unvisited@[i] == (root_list@[i], 0usize),
        decreases root_list@.len() - k,
    {
        unvisited.push((root_list[k], 0));
        proof {
            par = par.push((0int, 0int));
        }
        k = k + 1;
    }
    let mut visited = AllocIdSet::new();
    let mut levels: Vec<Vec<AllocId>> = Vec::new();
    let ghost mut pos: Map<IdView, (int, int)> = Map::empty();
    let ghost mut parent: Map<(int, int), int> = Map::empty();
    proof {
        let rl = root_list@.map_values(|id: AllocId| id_view(id));
        assert forall|r: IdView| #[trigger] roots_spec(g).contains(r) implies on_stack(unvisited@, r) by {
            assert(rl.to_set().contains(r));
            let i = choose|i: int| 0 <= i < rl.len() && rl[i] == r;
            assert(id_view(unvisited@[i].0) == r);
        }
        assert forall|i: int| 0 <= i < unvisited@.len() implies entry_ok(g, levels@, #[trigger] unvisited@[i], par[i]) by {
            assert(rl[i] == id_view(unvisited@[i].0));
            assert(rl.to_set().contains(rl[i]));
        }
        assert(pos.dom() =~= Set::<IdView>::empty());
    }
    while unvisited.len() > 0
        invariant
            g == graph.nodes(),
            closed_graph(g),
            g.dom().finite(),
            id_set_contents(visited) == pos.dom(),
            pos.dom().subset_of(g.dom()),
            layout_progress(g, levels@, pos, unvisited@, par),
            stack_shape(levels@, unvisited@, par),
            children_in_blocks(g, levels@, parent),
        decreases g.dom().len() - pos.dom().len(), unvisited@.len(),
    {
        proof {
            vstd::set_lib::lemma_len_subset(pos.dom(), g.dom());
        }
        let ghost old_stack = unvisited@;
        let ghost old_par = par;
        let ghost pos_start = pos;
        let (alloc_id, level) = unvisited.pop().unwrap();
        proof {
            assert(unvisited@ =~= old_stack.drop_last());
            par = par.drop_last();
        }
        if visited.contains(&alloc_id) {
            proof {
                lemma_pop_visited(g, levels@, pos, old_stack, old_par);
                lemma_shape_pop(levels@, old_stack, old_par);
            }
            continue;
        }
        proof {
            assert(entry_ok(g, levels@, old_stack[old_stack.len() - 1], old_par[old_stack.len() - 1]));
        }
        let ghost old_levels = levels@;
        // Children are in blocks, so (in the case of tree-like structures)
        // lines should not intersect. The level is at most one past the last.
        if levels.len() <= level {
            levels.push(Vec::new());
        }
        let mut row: Vec<AllocId> = Vec::new();
        levels.set_and_swap(level, &mut row);
        let m = row.len();
        row.push(alloc_id);
        levels.set_and_swap(level, &mut row);
        let nr_levels = levels.len();
        proof {
            assert(appended(old_levels, levels@, level as int, m as int, alloc_id));
        }
        visited.insert(alloc_id);
        let node = graph.get(&alloc_id).unwrap();
        let children = node.children();
        let ghost iv = id_view(alloc_id);
        let ghost stack0 = unvisited@;
        let ghost par0 = par;
        let ghost kids = children@.map_values(|e: crate::graph::logical::AllocEdge| e.ptr_meta_spec().id);
        proof {
            assert(node.view_node() == g[iv]);
            assert forall|j: int| 0 <= j < kids.len() implies id_view(#[trigger] kids[j]) == g[iv].2[j].0 by {
                assert(g[iv].2[j] == children@[j].view_edge());
            }
        }
        let mut j: usize = 0;
        while j < children.len()
            invariant
                j <= children@.len(),
                level < nr_levels,
                kids == children@.map_values(|e: crate::graph::logical::AllocEdge| e.ptr_meta_spec().id),
                unvisited@ == stack0 + kids.take(j as int).map_values(|k: AllocId| (k, (level + 1) as usize)),
                par == par0 + Seq::new(j as nat, |i: int| (level as int, m as int)),
            decreases children@.len() - j,
        {
            let child = *children[j].alloc_id();
            unvisited.push((child, level + 1));
            proof {
                par = par.push((level as int, m as int));
                assert(kids.take(j + 1) =~= kids.take(j as int).push(child));
                assert(unvisited@ =~= stack0 + kids.take(j + 1).map_values(|k: AllocId| (k, (level + 1) as usize)));
                assert(par =~= par0 + Seq::new((j + 1) as nat, |i: int| (level as int, m as int)));
            }
            j = j + 1;
        }
        proof {
            assert(kids.take(kids.len() as int) =~= kids);
            lemma_visit(g, old_levels, levels@, pos, old_stack, old_par, alloc_id, level, m as int, kids);
            lemma_visit_blocks(g, old_levels, levels@, pos, old_stack, old_par, parent, alloc_id, level, m as int, kids);
            if level > 0 {
                parent = parent.insert((level as int, m as int), old_par.last().1);
            }
            assert(unvisited@ =~= old_stack.drop_last() + kids.map_values(|k: AllocId| (k, (level + 1) as usize)));
            assert(par =~= old_par.drop_last() + Seq::new(kids.len(), |i: int| (level as int, m as int)));
            let pos_before = pos;
            pos = pos.insert(iv, (level as int, m as int));
            assert(id_set_contents(visited) =~= pos.dom());
            assert(pos.dom() =~= pos_before.dom().insert(iv));
            assert(pos.dom().len() == pos_before.dom().len() + 1);
            assert(pos_start == pos_before);
            assert(pos_start.dom().len() <= g.dom().len());
            assert(g.dom().len() - pos.dom().len() < g.dom().len() - pos_start.dom().len());
            vstd::set_lib::lemma_len_subset(pos.dom(), g.dom());
        }
    }
    proof {
        lemma_walk_done(g, levels@, pos);
        assert(children_in_blocks(g, levels@, parent));
    }
    levels
}

/// The size of the pages that allocations are grouped by for drawing.
pub const PAGE_SIZE: usize = 4096;

/// The start of the page that holds `addr`.
pub open spec fn page_base_spec(addr: usize) -> int {
    addr - (addr % PAGE_SIZE)
}

/// The start of the page that holds `addr`.
pub fn page_base_of(addr: usize) -> (r: usize)
    ensures
        r == page_base_spec(addr),
{
    assert(addr & !4095usize == addr - addr % 4096) by (bit_vector);
    addr & !(PAGE_SIZE - 1)
}

/// The pages that the allocations of `graph` start in, each once, in
/// increasing order.
pub fn sorted_pages(graph: &AllocGraph) -> (r: Vec<usize>)
    ensures
        forall|i: int, j: int| 0 <= i < j < r@.len() ==> r@[i] < r@[j],
        forall|p: usize| r@.contains(p) <==> exists|k: IdView| #[trigger] graph.nodes().dom().contains(k)
            && p == page_base_spec(k.0),
{
    let entries = graph.kv_pairs();
    let ghost keys = entries@.map_values(|e: (&AllocId, &crate::graph::logical::AllocNode)| id_view(*e.0));
    let mut pages: Vec<usize> = Vec::new();
    let mut i: usize = 0;
    while i < entries.len()
        invariant
            i <= entries@.len(),
            keys == entries@.map_values(|e: (&AllocId, &crate::graph::logical::AllocNode)| id_view(*e.0)),
            forall|a: int, b: int| 0 <= a < b < pages@.len() ==> pages@[a] < pages@[b],
            forall|p: usize| pages@.contains(p) <==> exists|k: int| 0 <= k < i && p == page_base_spec(#[trigger] keys[k].0),
        decreases entries@.len() - i,
    {
        let (id, _) = entries[i];
        let base = page_base_of(id.ptr);
        let ghost before = pages@;
        // Find where `base` belongs.
        let mut at: usize = 0;
        while at < pages.len() && pages[at] < base
            invariant
                at <= pages@.len(),
                pages@ == before,
                forall|a: int| 0 <= a < at ==> pages@[a] < base,
            decreases pages@.len() - at,
        {
            at = at + 1;
        }
        if at < pages.len() && pages[at] == base {
            proof {
                assert forall|p: usize| pages@.contains(p) <==> exists|k: int| 0 <= k < i + 1 && p == page_base_spec(#[trigger] keys[k].0) by {
                    if p == base {
                        assert(pages@[at as int] == p);
                        assert(keys[i as int].0 == id.ptr);
                    }
                    if exists|k: int| 0 <= k < i + 1 && p == page_base_spec(#[trigger] keys[k].0) {
                        let k = choose|k: int| 0 <= k < i + 1 && p == page_base_spec(#[trigger] keys[k].0);
                        if k == i {
                            assert(keys[i as int].0 == id.ptr);
                            assert(pages@[at as int] == p);
                        }
                    }
                }
            }
        } else {
            pages.insert(at, base);
            proof {
                assert forall|a: int, b: int| 0 <= a < b < pages@.len() implies pages@[a] < pages@[b] by {
                    if a < at && b > at {
                        assert(pages@[b] == before[b - 1]);
                        if b - 1 > at {
                            assert(before[at as int] < before[b - 1]);
                        }
                        assert(before[at as int] >= base || at == before.len());
                    } else if a == at {
                        assert(pages@[b] == before[b - 1]);
                        if b - 1 > at {
                            assert(before[at as int] < before[b - 1]);
                        }
                    } else if a > at {
                        assert(pages@[a] == before[a - 1]);
                        assert(pages@[b] == before[b - 1]);
                    }
                }
                assert forall|p: usize| pages@.contains(p) <==> exists|k: int| 0 <= k < i + 1 && p == page_base_spec(#[trigger] keys[k].0) by {
                    if pages@.contains(p) {
                        let c = choose|c: int| 0 <= c < pages@.len() && pages@[c] == p;
                        if c < at {
                            assert(before.contains(p));
                        } else if c > at {
                            assert(before[c - 1] == p);
                            assert(before.contains(p));
                        } else {
                            assert(keys[i as int].0 == id.ptr);
                        }
                    }
                    if exists|k: int| 0 <= k < i + 1 && p == page_base_spec(#[trigger] keys[k].0) {
                        let k = choose|k: int| 0 <= k < i + 1 && p == page_base_spec(#[trigger] keys[k].0);
                        if k == i {
                            assert(keys[i as int].0 == id.ptr);
                            assert(pages@[at as int] == p);
                        } else {
                            assert(before.contains(p));
                            let c = choose|c: int| 0 <= c < before.len() && before[c] == p;
                            if c < at {
                                assert(pages@[c] == p);
                            } else {
                                assert(pages@[c + 1] == p);
                            }
                        }
                    }
                }
            }
        }
        i = i + 1;
    }
    proof {
        assert forall|p: usize| pages@.contains(p) <==> exists|k: IdView| #[trigger] graph.nodes().dom().contains(k)
            && p == page_base_spec(k.0) by {
            if pages@.contains(p) {
                let k = choose|k: int| 0 <= k < entries@.len() && p == page_base_spec(#[trigger] keys[k].0);
                assert(keys.to_set().contains(keys[k]));
            }
            if exists|k: IdView| #[trigger] graph.nodes().dom().contains(k) && p == page_base_spec(k.0) {
                let k = choose|k: IdView| #[trigger] graph.nodes().dom().contains(k) && p == page_base_spec(k.0);
                assert(keys.to_set().contains(k));
                let c = choose|c: int| 0 <= c < keys.len() && keys[c] == k;
                assert(p == page_base_spec(keys[c].0));
            }
        }
    }
    pages
}

} // verus!
