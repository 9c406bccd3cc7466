use vstd::prelude::*;

use crate::grid::{in_grid, manhattan, manhattan_distance, same_pos, Pos};

verus! {

/// Upper bound on node costs below which a search step may run: it keeps every cost and
/// priority within `u64`.
pub const COST_LIMIT: u64 = 4611686018427387904;

/// One discovered grid cell.
pub struct Node {
    /// Id of the node this one was reached from; `None` only for the root.
    pub parent: Option<usize>,
    /// This node's id: its index in the arena, never changed.
    pub index: usize,
    /// Accumulated path cost from the start along the parent chain.
    pub cost: u64,
    /// Ordering key of the priority-driven strategies.
    pub priority: u64,
    pub pos: Pos,
}

/// All nodes discovered so far, the frontier, and the discovered target.
pub struct Arena {
    pub nodes: Vec<Node>,
    pub start_pos: Pos,
    /// An upper bound on the cost of every node.
    pub greatest_weight: u64,
    pub found_objective: Option<usize>,
    pub open: Vec<usize>,
}

pub open spec fn root_node(start: Pos) -> Node {
    Node { parent: None, index: 0, cost: 0, priority: 0, pos: start }
}

/// The node `k` has a parent in the arena, with a strictly lower cost.
pub open spec fn parent_ok(nodes: Seq<Node>, k: int) -> bool {
    match nodes[k].parent {
        Some(p) => p < nodes.len() && nodes[p as int].cost < nodes[k].cost,
        None => false,
    }
}

/// Node `0` is the parentless root at `start`, every other node has a parent of lower cost,
/// and each node knows its own id.
pub open spec fn tree_ok(nodes: Seq<Node>, start: Pos) -> bool {
    &&& nodes.len() >= 1
    &&& nodes[0] == root_node(start)
    &&& forall|k: int| 0 <= k < nodes.len() ==> (#[trigger] nodes[k]).index == k
    &&& forall|k: int| 0 < k < nodes.len() ==> #[trigger] parent_ok(nodes, k)
}

/// No two nodes share a position.
pub open spec fn unique_positions(nodes: Seq<Node>) -> bool {
    forall|i: int, j: int|
        0 <= i < nodes.len() && 0 <= j < nodes.len() && i != j ==> (#[trigger] nodes[i]).pos
            != (#[trigger] nodes[j]).pos
}

/// Some node stands at `q`.
pub open spec fn has_node(nodes: Seq<Node>, q: Pos) -> bool {
    exists|m: int| 0 <= m < nodes.len() && (#[trigger] nodes[m]).pos == q
}

/// The node reached from `k` by following `n` parent links (staying at the root).
pub open spec fn climb(nodes: Seq<Node>, k: int, n: nat) -> int
    decreases n,
{
    if n == 0 {
        k
    } else {
        match nodes[k].parent {
            Some(p) => climb(nodes, p as int, (n - 1) as nat),
            None => k,
        }
    }
}

/// Number of parent links from `k` back to the root.
pub open spec fn hops(nodes: Seq<Node>, k: int) -> nat
    decreases nodes[k].cost,
{
    if 0 <= k < nodes.len() && parent_ok(nodes, k) {
        1 + hops(nodes, nodes[k].parent->0 as int)
    } else {
        0
    }
}

impl Arena {
    pub open spec fn wf(&self) -> bool {
        &&& in_grid(self.start_pos)
        &&& tree_ok(self.nodes@, self.start_pos)
        &&& unique_positions(self.nodes@)
        &&& forall|k: int|
            0 <= k < self.nodes@.len() ==> in_grid((#[trigger] self.nodes@[k]).pos)
                && self.nodes@[k].cost <= self.greatest_weight
        &&& self.open@.no_duplicates()
        &&& forall|j: int| 0 <= j < self.open@.len() ==> #[trigger] self.open@[j] < self.nodes@.len()
        &&& self.found_objective matches Some(f) ==> f < self.nodes@.len()
    }

    /// No node but the root stands on a blocked position.
    pub open spec fn avoids(&self, walls: Set<Pos>) -> bool {
        forall|k: int| 0 < k < self.nodes@.len() ==> !walls.contains(#[trigger] self.nodes@[k].pos)
    }

    /// The single-root state of an arena that starts at `start`.
    pub open spec fn is_fresh(&self, start: Pos) -> bool {
        &&& self.start_pos == start
        &&& self.nodes@ == seq![root_node(start)]
        &&& self.open@ == seq![0usize]
        &&& self.found_objective is None
        &&& self.greatest_weight == 0
    }

    pub fn new(start_pos: Pos) -> (r: Arena)
        requires
            in_grid(start_pos),
        ensures
            r.wf(),
            r.is_fresh(start_pos),
    {
        let mut r = Arena {
            nodes: Vec::new(),
            start_pos,
            greatest_weight: 0,
            found_objective: None,
            open: vec![0],
        };
        r.new_node(start_pos);
        assert(r.open@ =~= seq![0usize]);
        r
    }

    /// Adds a parentless node at `pos` to an empty arena: the root.
    pub fn new_node(&mut self, pos: Pos) -> (r: usize)
        requires
            old(self).nodes@.len() == 0,
        ensures
            r == 0,
            final(self).nodes@ == seq![root_node(pos)],
            final(self).start_pos == old(self).start_pos,
            final(self).greatest_weight == old(self).greatest_weight,
            final(self).found_objective == old(self).found_objective,
            final(self).open@ == old(self).open@,
    {
        let next_index = self.nodes.len();
        self.nodes.push(Node { parent: None, index: next_index, cost: 0, priority: 0, pos });
        assert(self.nodes@ =~= seq![root_node(pos)]);
        next_index
    }

    /// Appends a node at the unexplored position `pos`, reached from `parent`.
    pub fn new_child(&mut self, parent: usize, pos: Pos, cost: u64, priority: u64) -> (r: usize)
        requires
            old(self).wf(),
            parent < old(self).nodes@.len(),
            old(self).nodes@[parent as int].cost < cost,
            in_grid(pos),
            !has_node(old(self).nodes@, pos),
        ensures
            final(self).wf(),
            r == old(self).nodes@.len(),
            final(self).nodes@ == old(self).nodes@.push(
                (Node { parent: Some(parent), index: r, cost, priority, pos }),
            ),
            final(self).greatest_weight == if cost > old(self).greatest_weight {
                cost
            } else {
                old(self).greatest_weight
            },
            final(self).start_pos == old(self).start_pos,
            final(self).found_objective == old(self).found_objective,
            final(self).open@ == old(self).open@,
    {
        let next_index = self.nodes.len();
        if cost > self.greatest_weight {
            self.greatest_weight = cost;
        }
        self.nodes.push(Node { parent: Some(parent), index: next_index, cost, priority, pos });
        proof {
            let s = self.nodes@;
            assert forall|k: int| 0 < k < s.len() implies #[trigger] parent_ok(s, k) by {
                if k < s.len() - 1 {
                    assert(parent_ok(old(self).nodes@, k));
                }
            }
            assert forall|i: int, j: int|
                0 <= i < s.len() && 0 <= j < s.len() && i != j implies (#[trigger] s[i]).pos
                != (#[trigger] s[j]).pos by {
                if i == s.len() - 1 && j < s.len() - 1 {
                    assert(old(self).nodes@[j] == s[j]);
                } else if j == s.len() - 1 && i < s.len() - 1 {
                    assert(old(self).nodes@[i] == s[i]);
                }
            }
        }
        next_index
    }

    /// The node at `pos`, if one was discovered.
    pub fn node_exists(&self, pos: Pos) -> (r: Option<&Node>)
        requires
            self.wf(),
        ensures
            match r {
                Some(n) => n.index < self.nodes@.len() && *n == self.nodes@[n.index as int]
                    && n.pos == pos,
                None => !has_node(self.nodes@, pos),
            },
    {
        let mut i: usize = 0;
        while i < self.nodes.len()
            invariant
                self.wf(),
                0 <= i <= self.nodes@.len(),
                forall|j: int| 0 <= j < i ==> (#[trigger] self.nodes@[j]).pos != pos,
            decreases self.nodes@.len() - i,
        {
            if same_pos(&self.nodes[i].pos, &pos) {
                return Some(&self.nodes[i]);
            }
            i = i + 1;
        }
        None
    }

    /// Sets the discovered target to the node at `objective`, or clears it where there is none.
    pub fn cached_search(&mut self, objective: &Pos)
        requires
            old(self).wf(),
        ensures
            final(self).wf(),
            match final(self).found_objective {
                Some(f) => final(self).nodes@[f as int].pos == *objective,
                None => !has_node(final(self).nodes@, *objective),
            },
            final(self).nodes@ == old(self).nodes@,
            final(self).open@ == old(self).open@,
            final(self).start_pos == old(self).start_pos,
            final(self).greatest_weight == old(self).greatest_weight,
    {
        let f = match self.node_exists(*objective) {
            Some(n) => Some(n.index),
            None => None,
        };
        self.found_objective = f;
    }

    /// Discards every node but a new root at the start, and the frontier.
    pub fn reset(&mut self)
        requires
            in_grid(old(self).start_pos),
        ensures
            final(self).wf(),
            final(self).is_fresh(old(self).start_pos),
    {
        self.nodes = Vec::new();
        self.new_node(self.start_pos);
        self.found_objective = None;
        self.greatest_weight = 0;
        self.open = vec![0];
        assert(self.open@ =~= seq![0usize]);
    }

    /// Resets where a node stands at `placed`; returns whether it did.
    pub fn smart_reset(&mut self, placed: Pos) -> (r: bool)
        requires
            old(self).wf(),
        ensures
            final(self).wf(),
            r == has_node(old(self).nodes@, placed),
            r ==> final(self).is_fresh(old(self).start_pos),
            !r ==> *final(self) == *old(self),
    {
        if self.node_exists(placed).is_some() {
            self.reset();
            true
        } else {
            false
        }
    }

    /// Resets where no node stands at `placed`; returns whether it did.
    pub fn i_smart_reset(&mut self, placed: Pos) -> (r: bool)
        requires
            old(self).wf(),
        ensures
            final(self).wf(),
            r == !has_node(old(self).nodes@, placed),
            r ==> final(self).is_fresh(old(self).start_pos),
            !r ==> *final(self) == *old(self),
    {
        if self.node_exists(placed).is_none() {
            self.reset();
            true
        } else {
            false
        }
    }

    /// Manhattan distance from the start to `pos`.
    pub fn distance_from_start(&self, pos: Pos) -> (r: u64)
        requires
            in_grid(self.start_pos),
            in_grid(pos),
        ensures
            r == manhattan(self.start_pos, pos),
    {
        manhattan_distance(self.start_pos, pos)
    }

    /// The heuristic of the priority-driven strategies: Manhattan distance.
    pub fn heuristic(p1: Pos, p2: Pos) -> (r: u64)
        requires
            in_grid(p1),
            in_grid(p2),
        ensures
            r == manhattan(p1, p2),
    {
        manhattan_distance(p1, p2)
    }

    /// Number of parent links from `node_id` back to the root.
    pub fn path_length(&self, node_id: usize) -> (r: usize)
        requires
            self.wf(),
            node_id < self.nodes@.len(),
            self.nodes@[node_id as int].cost <= usize::MAX,
        ensures
            r == hops(self.nodes@, node_id as int),
    {
        let mut steps: usize = 0;
        self.nodes[node_id].total_steps(&mut steps, self);
        steps
    }
}

impl Node {
    /// Adds to `total_steps` the number of parent links from this node back to the root.
    pub fn total_steps(&self, total_steps: &mut usize, arena: &Arena)
        requires
            arena.wf(),
            self.index < arena.nodes@.len(),
            arena.nodes@[self.index as int] == *self,
            *old(total_steps) + self.cost <= usize::MAX,
        ensures
            *final(total_steps) == *old(total_steps) + hops(arena.nodes@, self.index as int),
        decreases self.cost,
    {
        proof {
            lemma_hops_le_cost(arena.nodes@, arena.start_pos, self.index as int);
        }
        if let Some(parent) = self.parent {
            assert(self.index != 0);
            assert(parent_ok(arena.nodes@, self.index as int));
            *total_steps += 1;
            arena.nodes[parent].total_steps(total_steps, arena);
        } else {
            assert(self.index == 0);
        }
    }
}

/// Following parent links never takes more steps to the root than a node's cost.
pub proof fn lemma_hops_le_cost(nodes: Seq<Node>, start: Pos, k: int)
    requires
        tree_ok(nodes, start),
        0 <= k < nodes.len(),
    ensures
        hops(nodes, k) <= nodes[k].cost,
        k == 0 <==> hops(nodes, k) == 0,
    decreases nodes[k].cost,
{
    if k != 0 {
        assert(parent_ok(nodes, k));
        lemma_hops_le_cost(nodes, start, nodes[k].parent->0 as int);
    }
}

} // verus!
