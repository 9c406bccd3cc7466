use vstd::prelude::*;

use crate::arena::{climb, hops, parent_ok, tree_ok, Arena, Node};
use crate::grid::Pos;
use crate::search::layered;

verus! {

proof fn lemma_climb_descends(nodes: Seq<Node>, start: Pos, k: int, n: nat)
    requires
        tree_ok(nodes, start),
        0 <= k < nodes.len(),
    ensures
        0 <= climb(nodes, k, n) < nodes.len(),
        nodes[climb(nodes, k, n)].cost <= nodes[k].cost,
        k != 0 && n > 0 ==> nodes[climb(nodes, k, n)].cost < nodes[k].cost,
    decreases n,
{
    if n > 0 && k != 0 {
        assert(parent_ok(nodes, k));
        let p = nodes[k].parent->0 as int;
        lemma_climb_descends(nodes, start, p, (n - 1) as nat);
    }
}

proof fn lemma_climb_reaches_root(nodes: Seq<Node>, start: Pos, k: int)
    requires
        tree_ok(nodes, start),
        0 <= k < nodes.len(),
    ensures
        climb(nodes, k, hops(nodes, k)) == 0,
    decreases nodes[k].cost,
{
    if k != 0 {
        assert(parent_ok(nodes, k));
        let p = nodes[k].parent->0 as int;
        lemma_climb_reaches_root(nodes, start, p);
    } else {
        assert(!parent_ok(nodes, 0));
    }
}

/// The parent links form a tree rooted at node `0`: from every node they lead to the root in
/// `hops` steps without leaving the arena, and no node other than the root is reached again
/// by following them.
pub proof fn lemma_parent_links_form_tree(a: &Arena, k: int)
    requires
        a.wf(),
        0 <= k < a.nodes@.len(),
    ensures
        climb(a.nodes@, k, hops(a.nodes@, k)) == 0,
        forall|n: nat| 0 <= #[trigger] climb(a.nodes@, k, n) < a.nodes@.len(),
        forall|n: nat| n > 0 && #[trigger] climb(a.nodes@, k, n) == k ==> k == 0,
{
    lemma_climb_reaches_root(a.nodes@, a.start_pos, k);
    assert forall|n: nat| 0 <= #[trigger] climb(a.nodes@, k, n) < a.nodes@.len() by {
        lemma_climb_descends(a.nodes@, a.start_pos, k, n);
    }
    assert forall|n: nat| n > 0 && #[trigger] climb(a.nodes@, k, n) == k implies k == 0 by {
        lemma_climb_descends(a.nodes@, a.start_pos, k, n);
    }
}

/// No two nodes of an arena share a position.
pub proof fn lemma_positions_unique(a: &Arena, i: int, j: int)
    requires
        a.wf(),
        0 <= i < a.nodes@.len(),
        0 <= j < a.nodes@.len(),
        i != j,
    ensures
        a.nodes@[i].pos != a.nodes@[j].pos,
{
}

/// Resetting twice leaves the same state as resetting once.
pub proof fn lemma_reset_idempotent(once: &Arena, twice: &Arena, start: Pos)
    requires
        once.is_fresh(start),
        twice.is_fresh(once.start_pos),
    ensures
        twice.start_pos == once.start_pos,
        twice.nodes@ == once.nodes@,
        twice.open@ == once.open@,
        twice.found_objective == once.found_objective,
        twice.greatest_weight == once.greatest_weight,
{
}

/// A freshly reset arena avoids every set of blocked positions; since search steps keep
/// that, the path from any node discovered afterwards back to the start crosses no blocked
/// position, the start itself aside.
pub proof fn lemma_replanned_path_avoids_walls(a: &Arena, walls: Set<Pos>, k: int)
    requires
        a.wf(),
        a.avoids(walls),
        0 <= k < a.nodes@.len(),
    ensures
        forall|n: nat|
            #![trigger climb(a.nodes@, k, n)]
            climb(a.nodes@, k, n) == 0 || !walls.contains(a.nodes@[climb(a.nodes@, k, n)].pos),
{
    assert forall|n: nat|
        #![trigger climb(a.nodes@, k, n)]
        climb(a.nodes@, k, n) == 0 || !walls.contains(a.nodes@[climb(a.nodes@, k, n)].pos) by {
        lemma_climb_descends(a.nodes@, a.start_pos, k, n);
    }
}

/// A freshly reset arena avoids every set of blocked positions.
pub proof fn lemma_fresh_avoids(a: &Arena, start: Pos, walls: Set<Pos>)
    requires
        a.is_fresh(start),
    ensures
        a.avoids(walls),
{
}

/// In a freshly reset arena every cost is the node's number of parent links, which layer
/// steps then keep.
pub proof fn lemma_fresh_layered(a: &Arena, start: Pos)
    requires
        a.is_fresh(start),
    ensures
        layered(a.nodes@),
{
    assert(!parent_ok(a.nodes@, 0));
}

} // verus!
