use vstd::prelude::*;

use crate::arena::{has_node, hops, parent_ok, tree_ok, Arena, Node, COST_LIMIT};
use crate::grid::{dir_of, in_grid, lemma_dir_of_neighbor, manhattan, manhattan_distance, neighbor, neighbor_of, same_pos, Pos};
use crate::walls::Walls;

verus! {

/// The expansion strategies.
#[derive(Clone, Copy, Debug, PartialEq, Eq, Structural)]
pub enum Strategy {
    /// Layer by layer (breadth-first).
    Layer,
    /// Lowest distance to the target first.
    Greedy,
    /// Lowest cost plus distance to the target first (A*).
    CostAware,
}

/// The nodes of `a` stand unchanged at the front of `b`.
pub open spec fn grows(a: Seq<Node>, b: Seq<Node>) -> bool {
    a.len() <= b.len() && forall|k: int| 0 <= k < a.len() ==> #[trigger] b[k] == a[k]
}

/// `q` is one of the four neighbours of `p`.
pub open spec fn is_neighbor(p: Pos, q: Pos) -> bool {
    exists|d: int| 0 <= d < 4 && #[trigger] neighbor_of(p, d) == Some(q)
}

/// Node `m` hangs below node `i` on an unblocked neighbour of `i`'s position.
pub open spec fn child_of(nodes: Seq<Node>, walls: Set<Pos>, m: int, i: int) -> bool {
    &&& nodes[m].parent == Some(i as usize)
    &&& is_neighbor(nodes[i].pos, nodes[m].pos)
    &&& !walls.contains(nodes[m].pos)
}

/// The neighbour of `p` in direction `d` is blocked, off the grid, or already discovered.
pub open spec fn covered(nodes: Seq<Node>, walls: Set<Pos>, p: Pos, d: int) -> bool {
    match neighbor_of(p, d) {
        Some(q) => walls.contains(q) || has_node(nodes, q),
        None => true,
    }
}

/// Every neighbour of `p` is blocked, off the grid, or already discovered.
pub open spec fn expanded(nodes: Seq<Node>, walls: Set<Pos>, p: Pos) -> bool {
    forall|d: int| 0 <= d < 4 ==> #[trigger] covered(nodes, walls, p, d)
}

/// The ids `a, a + 1, ..., b - 1`.
pub open spec fn fresh_ids(a: int, b: int) -> Seq<usize> {
    Seq::new((b - a) as nat, |t: int| (a + t) as usize)
}

/// Node `m` is a child made by one layer step over the frontier `open` of `old_nodes`.
pub open spec fn layer_child(
    old_nodes: Seq<Node>,
    open: Seq<usize>,
    nodes: Seq<Node>,
    walls: Set<Pos>,
    m: int,
) -> bool {
    exists|t: int|
        0 <= t < open.len() && #[trigger] open[t] as int == nodes[m].parent->0 as int && child_of(
            nodes,
            walls,
            m,
            open[t] as int,
        ) && nodes[m].cost == old_nodes[open[t] as int].cost + 1 && nodes[m].priority == 0
}

pub proof fn lemma_covered_grows(a: Seq<Node>, b: Seq<Node>, walls: Set<Pos>, p: Pos, d: int)
    requires
        grows(a, b),
        covered(a, walls, p, d),
    ensures
        covered(b, walls, p, d),
{
    if let Some(q) = neighbor_of(p, d) {
        if !walls.contains(q) {
            let m = choose|m: int| 0 <= m < a.len() && (#[trigger] a[m]).pos == q;
            assert(b[m] == a[m]);
        }
    }
}

/// Every node's cost is its number of parent links back to the root.
pub open spec fn layered(nodes: Seq<Node>) -> bool {
    forall|k: int| 0 <= k < nodes.len() ==> #[trigger] nodes[k].cost == hops(nodes, k)
}

proof fn lemma_hops_grows(a: Seq<Node>, b: Seq<Node>, start: Pos, k: int)
    requires
        tree_ok(a, start),
        grows(a, b),
        0 <= k < a.len(),
    ensures
        hops(b, k) == hops(a, k),
    decreases a[k].cost,
{
    assert(b[k] == a[k]);
    if k != 0 {
        assert(parent_ok(a, k));
        let p = a[k].parent->0 as int;
        assert(b[p] == a[p]);
        lemma_hops_grows(a, b, start, p);
    }
}

/// A layer step keeps every cost equal to the node's number of parent links.
proof fn lemma_layer_step_layered(
    a: Seq<Node>,
    open: Seq<usize>,
    b: Seq<Node>,
    walls: Set<Pos>,
    start: Pos,
)
    requires
        tree_ok(a, start),
        tree_ok(b, start),
        grows(a, b),
        layered(a),
        forall|t: int| 0 <= t < open.len() ==> #[trigger] open[t] < a.len(),
        forall|m: int| a.len() <= m < b.len() ==> #[trigger] layer_child(a, open, b, walls, m),
    ensures
        layered(b),
{
    assert forall|k: int| 0 <= k < b.len() implies #[trigger] b[k].cost == hops(b, k) by {
        if k < a.len() {
            lemma_hops_grows(a, b, start, k);
            assert(b[k] == a[k]);
        } else {
            assert(layer_child(a, open, b, walls, k));
            let t = choose|t: int|
                0 <= t < open.len() && #[trigger] open[t] as int == b[k].parent->0 as int
                    && child_of(b, walls, k, open[t] as int) && b[k].cost == a[open[t] as int].cost
                    + 1 && b[k].priority == 0;
            let p = open[t] as int;
            assert(k != 0);
            assert(parent_ok(b, k));
            assert(p < a.len());
            lemma_hops_grows(a, b, start, p);
            assert(a[p].cost == hops(a, p));
            assert(hops(b, k) == 1 + hops(b, p));
        }
    }
}

/// `(t1, e1)` comes before `(t2, e2)`: frontier position first, then direction.
pub open spec fn key_before(t1: int, e1: int, t2: int, e2: int) -> bool {
    t1 < t2 || (t1 == t2 && e1 < e2)
}

/// The new nodes of a layer step come in frontier order, then in direction order.
pub open spec fn layer_ordered(old_nodes: Seq<Node>, open: Seq<usize>, nodes: Seq<Node>) -> bool {
    forall|m1: int, m2: int, t1: int, t2: int|
        old_nodes.len() <= m1 < m2 < nodes.len() && 0 <= t1 < open.len() && 0 <= t2 < open.len()
            && (#[trigger] nodes[m1]).parent == Some(#[trigger] open[t1]) && (#[trigger] nodes[m2]).parent
            == Some(#[trigger] open[t2]) ==> key_before(
            t1,
            dir_of(old_nodes[open[t1] as int].pos, nodes[m1].pos),
            t2,
            dir_of(old_nodes[open[t2] as int].pos, nodes[m2].pos),
        )
}

/// Each new node of a layer step stands where no earlier frontier node and direction led.
pub open spec fn layer_first(old_nodes: Seq<Node>, open: Seq<usize>, nodes: Seq<Node>) -> bool {
    forall|m: int, t: int, t2: int, e: int|
        old_nodes.len() <= m < nodes.len() && 0 <= t < open.len() && (#[trigger] nodes[m]).parent
            == Some(#[trigger] open[t]) && 0 <= t2 < open.len() && 0 <= e < 4 && key_before(
            t2,
            e,
            t,
            dir_of(old_nodes[open[t] as int].pos, nodes[m].pos),
        ) ==> #[trigger] neighbor_of(old_nodes[open[t2] as int].pos, e) != Some(nodes[m].pos)
}

/// Every new node of a layer step was made before frontier position `j`, direction `d`.
pub open spec fn layer_before(
    old_nodes: Seq<Node>,
    open: Seq<usize>,
    nodes: Seq<Node>,
    j: int,
    d: int,
) -> bool {
    forall|m: int, t: int|
        old_nodes.len() <= m < nodes.len() && 0 <= t < open.len() && (#[trigger] nodes[m]).parent
            == Some(#[trigger] open[t]) ==> key_before(
            t,
            dir_of(old_nodes[open[t] as int].pos, nodes[m].pos),
            j,
            d,
        )
}

/// Every frontier position and direction before `(j, d)` is covered.
pub open spec fn covered_before(
    old_nodes: Seq<Node>,
    open: Seq<usize>,
    nodes: Seq<Node>,
    walls: Set<Pos>,
    j: int,
    d: int,
) -> bool {
    forall|t2: int, e: int|
        0 <= t2 < open.len() && 0 <= e < 4 && key_before(t2, e, j, d) ==> #[trigger] covered(
            nodes,
            walls,
            old_nodes[#[trigger] open[t2] as int].pos,
            e,
        )
}

/// Creating the node for frontier position `j`, direction `d`, keeps the layer order.
proof fn lemma_layer_push(
    old_nodes: Seq<Node>,
    open: Seq<usize>,
    before: Seq<Node>,
    s: Seq<Node>,
    walls: Set<Pos>,
    j: int,
    d: int,
    q: Pos,
)
    requires
        open.no_duplicates(),
        forall|t: int| 0 <= t < open.len() ==> #[trigger] open[t] < old_nodes.len(),
        0 <= j < open.len(),
        0 <= d < 4,
        grows(old_nodes, before),
        s.len() == before.len() + 1,
        forall|k: int| 0 <= k < before.len() ==> #[trigger] s[k] == before[k],
        s[before.len() as int].parent == Some(open[j]),
        s[before.len() as int].pos == q,
        neighbor_of(old_nodes[open[j] as int].pos, d) == Some(q),
        !walls.contains(q),
        !has_node(before, q),
        layer_ordered(old_nodes, open, before),
        layer_first(old_nodes, open, before),
        layer_before(old_nodes, open, before, j, d),
        covered_before(old_nodes, open, before, walls, j, d),
    ensures
        layer_ordered(old_nodes, open, s),
        layer_first(old_nodes, open, s),
        layer_before(old_nodes, open, s, j, d + 1),
        covered_before(old_nodes, open, s, walls, j, d + 1),
{
    let n = before.len() as int;
    lemma_dir_of_neighbor(old_nodes[open[j] as int].pos, d, q);
    assert forall|t: int| 0 <= t < open.len() && s[n].parent == Some(open[t]) implies t == j by {
        assert(open[t] == open[j]);
    }
    assert forall|m1: int, m2: int, t1: int, t2: int|
        old_nodes.len() <= m1 < m2 < s.len() && 0 <= t1 < open.len() && 0 <= t2 < open.len()
            && (#[trigger] s[m1]).parent == Some(#[trigger] open[t1]) && (#[trigger] s[m2]).parent
            == Some(#[trigger] open[t2]) implies key_before(
        t1,
        dir_of(old_nodes[open[t1] as int].pos, s[m1].pos),
        t2,
        dir_of(old_nodes[open[t2] as int].pos, s[m2].pos),
    ) by {
        assert(s[m1] == before[m1]);
        if m2 < n {
            assert(s[m2] == before[m2]);
        } else {
            assert(t2 == j);
        }
    }
    assert forall|m: int, t: int, t2: int, e: int|
        old_nodes.len() <= m < s.len() && 0 <= t < open.len() && (#[trigger] s[m]).parent
            == Some(#[trigger] open[t]) && 0 <= t2 < open.len() && 0 <= e < 4 && key_before(
            t2,
            e,
            t,
            dir_of(old_nodes[open[t] as int].pos, s[m].pos),
        ) implies #[trigger] neighbor_of(old_nodes[open[t2] as int].pos, e) != Some(s[m].pos) by {
        if m < n {
            assert(s[m] == before[m]);
        } else {
            assert(t == j);
            if neighbor_of(old_nodes[open[t2] as int].pos, e) == Some(q) {
                assert(covered(before, walls, old_nodes[open[t2] as int].pos, e));
            }
        }
    }
    assert forall|m: int, t: int|
        old_nodes.len() <= m < s.len() && 0 <= t < open.len() && (#[trigger] s[m]).parent
            == Some(#[trigger] open[t]) implies key_before(
        t,
        dir_of(old_nodes[open[t] as int].pos, s[m].pos),
        j,
        d + 1,
    ) by {
        if m < n {
            assert(s[m] == before[m]);
        } else {
            assert(t == j);
        }
    }
    assert forall|t2: int, e: int|
        0 <= t2 < open.len() && 0 <= e < 4 && key_before(t2, e, j, d + 1) implies #[trigger] covered(
        s,
        walls,
        old_nodes[#[trigger] open[t2] as int].pos,
        e,
    ) by {
        if key_before(t2, e, j, d) {
            assert(covered(before, walls, old_nodes[open[t2] as int].pos, e));
            lemma_covered_grows(before, s, walls, old_nodes[open[t2] as int].pos, e);
        } else {
            assert(open[t2] == open[j]);
            assert(s[n].pos == q);
        }
    }
}

/// Position in `open` of the first node of lowest priority among the first `n` entries.
pub open spec fn min_pos(nodes: Seq<Node>, open: Seq<usize>, n: int) -> int
    decreases n,
{
    if n <= 1 {
        0
    } else {
        let m = min_pos(nodes, open, n - 1);
        if nodes[open[n - 1] as int].priority < nodes[open[m] as int].priority {
            n - 1
        } else {
            m
        }
    }
}

/// `min_pos` picks a frontier entry of lowest priority, and the first of those.
pub proof fn lemma_min_pos(nodes: Seq<Node>, open: Seq<usize>, n: int)
    requires
        1 <= n <= open.len(),
    ensures
        0 <= min_pos(nodes, open, n) < n,
        forall|q: int|
            0 <= q < n ==> nodes[open[min_pos(nodes, open, n)] as int].priority <= nodes[#[trigger] open[q] as int].priority,
        forall|q: int|
            0 <= q < min_pos(nodes, open, n) ==> nodes[#[trigger] open[q] as int].priority
                > nodes[open[min_pos(nodes, open, n)] as int].priority,
    decreases n,
{
    if n > 1 {
        lemma_min_pos(nodes, open, n - 1);
    }
}

/// The neighbour of `p` in direction `d` is blocked, off the grid, or held by a node of cost
/// at most `c`.
pub open spec fn cheaply_covered(nodes: Seq<Node>, walls: Set<Pos>, p: Pos, c: int, d: int) -> bool {
    match neighbor_of(p, d) {
        Some(q) => walls.contains(q) || exists|m: int|
            0 <= m < nodes.len() && (#[trigger] nodes[m]).pos == q && nodes[m].cost <= c,
        None => true,
    }
}

/// Node `k` is new in `b`, or changed from `a`.
pub open spec fn touched(a: Seq<Node>, b: Seq<Node>, k: int) -> bool {
    k >= a.len() || b[k] != a[k]
}

/// Positions are kept and costs only go down from `a` to `b`; `b` may hold more nodes.
pub open spec fn costs_lowered(a: Seq<Node>, b: Seq<Node>) -> bool {
    &&& a.len() <= b.len()
    &&& forall|k: int|
        0 <= k < a.len() ==> (#[trigger] b[k]).pos == a[k].pos && b[k].index == a[k].index
            && b[k].cost <= a[k].cost
}

/// Node `k` was reached from `i` at cost `c`, with priority `c` plus its distance to `target`.
pub open spec fn priced_child(
    nodes: Seq<Node>,
    walls: Set<Pos>,
    k: int,
    i: int,
    c: int,
    priority: int,
) -> bool {
    &&& child_of(nodes, walls, k, i)
    &&& nodes[k].cost == c
    &&& nodes[k].priority == priority
}

pub proof fn lemma_cheaply_covered_lowered(
    a: Seq<Node>,
    b: Seq<Node>,
    walls: Set<Pos>,
    p: Pos,
    c: int,
    d: int,
)
    requires
        costs_lowered(a, b),
        cheaply_covered(a, walls, p, c, d),
    ensures
        cheaply_covered(b, walls, p, c, d),
{
    if let Some(q) = neighbor_of(p, d) {
        if !walls.contains(q) {
            let m = choose|m: int| 0 <= m < a.len() && (#[trigger] a[m]).pos == q && a[m].cost <= c;
            assert(b[m].pos == q);
        }
    }
}

/// Whether `x` is in `v`.
fn contains_id(v: &Vec<usize>, x: usize) -> (r: bool)
    ensures
        r == v@.contains(x),
{
    let mut i: usize = 0;
    while i < v.len()
        invariant
            0 <= i <= v@.len(),
            forall|j: int| 0 <= j < i ==> v@[j] != x,
        decreases v@.len() - i,
    {
        if v[i] == x {
            return true;
        }
        i = i + 1;
    }
    false
}

/// One layer step from `a` to `b`, returning `r`: each new node is a child of a frontier node
/// on an unblocked neighbour, costing one more than its parent; the new nodes come in frontier
/// order and then direction order, each where no earlier frontier node and direction led, and
/// they form the next frontier. Either no new node is on `objective`, every neighbour of every
/// frontier node is blocked, off the grid or discovered, and `r` says whether the next frontier
/// is empty; or the last new node is on `objective`, becomes the discovered target, every
/// frontier position and direction before it is covered, and `r` holds.
pub open spec fn layer_step(a: Arena, b: Arena, walls: Set<Pos>, objective: Pos, r: bool) -> bool {
    &&& b.start_pos == a.start_pos
    &&& b.greatest_weight <= a.greatest_weight + 1
    &&& grows(a.nodes@, b.nodes@)
    &&& forall|m: int|
        a.nodes@.len() <= m < b.nodes@.len() ==> #[trigger] layer_child(
            a.nodes@,
            a.open@,
            b.nodes@,
            walls,
            m,
        )
    &&& layer_ordered(a.nodes@, a.open@, b.nodes@)
    &&& layer_first(a.nodes@, a.open@, b.nodes@)
    &&& b.open@ == fresh_ids(
        a.nodes@.len() as int,
        b.nodes@.len() as int
    )
    &&& layered(a.nodes@) ==> layered(b.nodes@)
    &&& ({
        &&& b.found_objective == a.found_objective
        &&& forall|m: int|
            a.nodes@.len() <= m < b.nodes@.len() ==> (
            #[trigger] b.nodes@[m]).pos != objective
        &&& forall|t: int|
            0 <= t < a.open@.len() ==> expanded(
                b.nodes@,
                walls,
                a.nodes@[#[trigger] a.open@[t] as int].pos,
            )
        &&& r == (b.open@.len() == 0)
    }) || ({
        &&& b.nodes@.len() > a.nodes@.len()
        &&& b.found_objective == Some((b.nodes@.len() - 1) as usize)
        &&& b.nodes@.last().pos == objective
        &&& forall|t: int|
            0 <= t < a.open@.len() && b.nodes@.last().parent == Some(
                #[trigger] a.open@[t],
            ) ==> covered_before(
                a.nodes@,
                a.open@,
                b.nodes@,
                walls,
                t,
                dir_of(
                    a.nodes@[a.open@[t] as int].pos,
                    b.nodes@.last().pos,
                ),
            )
        &&& r
    })
}

/// One greedy step from `a` to `b`, returning `r`. On an empty frontier nothing changes and `r`
/// holds. Otherwise the first frontier node `i` of lowest priority leaves the frontier; each new
/// node is a child of `i` on an unblocked neighbour, in direction order, at cost `cost(i) + 20`
/// with priority its distance to `objective`. Either none is on `objective`, every neighbour of
/// `i` is covered, the new nodes join the end of the frontier and `r` is false; or the last one
/// is on `objective`, becomes the discovered target, the directions before it are covered, and
/// `r` holds.
pub open spec fn greedy_step(a: Arena, b: Arena, walls: Set<Pos>, objective: Pos, r: bool) -> bool {
    &&& b.start_pos == a.start_pos
    &&& b.greatest_weight <= a.greatest_weight + 20
    &&& grows(a.nodes@, b.nodes@)
    &&& a.open@.len() == 0 ==> r && b.nodes@ == a.nodes@
        && b.open@ == a.open@
        && b.found_objective == a.found_objective
        && b.greatest_weight == a.greatest_weight
    &&& a.open@.len() > 0 ==> ({
        let p = min_pos(a.nodes@, a.open@, a.open@.len() as int);
        let i = a.open@[p] as int;
        &&& forall|m: int|
            a.nodes@.len() <= m < b.nodes@.len() ==> #[trigger] priced_child(
                b.nodes@,
                walls,
                m,
                i,
                a.nodes@[i].cost + 20,
                manhattan(objective, b.nodes@[m].pos),
            )
        &&& forall|m1: int, m2: int|
            a.nodes@.len() <= m1 < m2 < b.nodes@.len() ==> #[trigger] dir_of(
                a.nodes@[i].pos,
                b.nodes@[m1].pos,
            ) < #[trigger] dir_of(a.nodes@[i].pos, b.nodes@[m2].pos)
        &&& ({
            &&& b.found_objective == a.found_objective
            &&& forall|m: int|
                a.nodes@.len() <= m < b.nodes@.len() ==> (
                #[trigger] b.nodes@[m]).pos != objective
            &&& expanded(b.nodes@, walls, a.nodes@[i].pos)
            &&& b.open@ == a.open@.remove(p) + fresh_ids(
                a.nodes@.len() as int,
                b.nodes@.len() as int,
            )
            &&& !r
        }) || ({
            &&& b.nodes@.len() > a.nodes@.len()
            &&& b.found_objective == Some(
                (b.nodes@.len() - 1) as usize,
            )
            &&& b.nodes@.last().pos == objective
            &&& forall|e: int|
                0 <= e < dir_of(a.nodes@[i].pos, objective) ==> #[trigger] covered(
                    b.nodes@,
                    walls,
                    a.nodes@[i].pos,
                    e,
                )
            &&& b.open@ == a.open@.remove(p)
            &&& r
        })
    })
}

/// One cost-aware step from `a` to `b`, returning `r`. On an empty frontier nothing changes and
/// `r` holds. Otherwise the first frontier node `i` of lowest priority leaves the frontier;
/// positions stay, costs only go down, and each node that is new or changed now hangs below `i`
/// on an unblocked neighbour at cost `cost(i) + 20`, with priority that cost plus its distance
/// to `objective`; new nodes come in direction order. Either none is on `objective`, every
/// neighbour of `i` is blocked, off the grid or held at cost at most `cost(i) + 20`, the nodes
/// touched and not yet on the frontier join its end in direction order, and `r` is false; or a
/// touched node on `objective` becomes the discovered target, nothing past its direction was
/// touched, the directions before it are covered, and `r` holds.
pub open spec fn cost_aware_step(a: Arena, b: Arena, walls: Set<Pos>, objective: Pos, r: bool) -> bool {
    &&& b.start_pos == a.start_pos
    &&& b.greatest_weight <= a.greatest_weight + 20
    &&& costs_lowered(a.nodes@, b.nodes@)
    &&& forall|k: int|
        0 <= k < a.nodes@.len() && touched(a.nodes@, b.nodes@, k) ==> #[trigger] b.nodes@[k].cost
            < a.nodes@[k].cost
    &&& a.open@.len() == 0 ==> r && b.nodes@ == a.nodes@
        && b.open@ == a.open@
        && b.found_objective == a.found_objective
        && b.greatest_weight == a.greatest_weight
    &&& a.open@.len() > 0 ==> ({
        let p = min_pos(a.nodes@, a.open@, a.open@.len() as int);
        let i = a.open@[p] as int;
        &&& b.nodes@[i] == a.nodes@[i]
        &&& forall|k: int|
            0 <= k < b.nodes@.len() && touched(
                a.nodes@,
                b.nodes@,
                k,
            ) ==> #[trigger] priced_child(
                b.nodes@,
                walls,
                k,
                i,
                a.nodes@[i].cost + 20,
                a.nodes@[i].cost + 20 + manhattan(
                    b.nodes@[k].pos,
                    objective,
                ),
            )
        &&& forall|k1: int, k2: int|
            a.nodes@.len() <= k1 < k2 < b.nodes@.len() ==> #[trigger] dir_of(
                a.nodes@[i].pos,
                b.nodes@[k1].pos,
            ) < #[trigger] dir_of(a.nodes@[i].pos, b.nodes@[k2].pos)
        &&& ({
            &&& b.found_objective == a.found_objective
            &&& forall|u1: int, u2: int|
                a.open@.len() - 1 <= u1 < u2 < b.open@.len() ==> dir_of(
                    a.nodes@[i].pos,
                    b.nodes@[#[trigger] b.open@[u1] as int].pos,
                ) < dir_of(
                    a.nodes@[i].pos,
                    b.nodes@[#[trigger] b.open@[u2] as int].pos,
                )
            &&& forall|k: int|
                0 <= k < b.nodes@.len() && touched(
                    a.nodes@,
                    b.nodes@,
                    k,
                ) ==> (#[trigger] b.nodes@[k]).pos != objective
            &&& forall|d: int|
                0 <= d < 4 ==> #[trigger] cheaply_covered(
                    b.nodes@,
                    walls,
                    a.nodes@[i].pos,
                    a.nodes@[i].cost + 20,
                    d,
                )
            &&& b.open@.len() >= a.open@.len() - 1
            &&& b.open@.subrange(0, a.open@.len() - 1)
                == a.open@.remove(p)
            &&& forall|t: int|
                a.open@.len() - 1 <= t < b.open@.len() ==> touched(
                    a.nodes@,
                    b.nodes@,
                    #[trigger] b.open@[t] as int,
                )
            &&& forall|k: int|
                0 <= k < b.nodes@.len() && touched(
                    a.nodes@,
                    b.nodes@,
                    k,
                ) ==> b.open@.contains(k as usize)
            &&& !r
        }) || ({
            &&& b.found_objective matches Some(f)
                && f < b.nodes@.len()
                && touched(a.nodes@, b.nodes@, f as int)
                && b.nodes@[f as int].pos == objective
            &&& forall|k: int|
                0 <= k < b.nodes@.len() && touched(
                    a.nodes@,
                    b.nodes@,
                    k,
                ) ==> #[trigger] dir_of(a.nodes@[i].pos, b.nodes@[k].pos)
                    <= dir_of(a.nodes@[i].pos, objective)
            &&& forall|e: int|
                0 <= e < dir_of(a.nodes@[i].pos, objective) ==> #[trigger] cheaply_covered(
                    b.nodes@,
                    walls,
                    a.nodes@[i].pos,
                    a.nodes@[i].cost + 20,
                    e,
                )
            &&& b.open@ == a.open@.remove(p)
            &&& r
        })
    })
}

/// One step of `strategy` from `a` to `b`, returning `r`.
pub open spec fn step_of(
    strategy: Strategy,
    a: Arena,
    b: Arena,
    walls: Set<Pos>,
    objective: Pos,
    r: bool,
) -> bool {
    match strategy {
        Strategy::Layer => layer_step(a, b, walls, objective, r),
        Strategy::Greedy => greedy_step(a, b, walls, objective, r),
        Strategy::CostAware => cost_aware_step(a, b, walls, objective, r),
    }
}

/// `states` are the arenas passed through by successive steps of `strategy`, which returned
/// `results`; every step but the last returned false.
pub open spec fn is_run(
    strategy: Strategy,
    states: Seq<Arena>,
    results: Seq<bool>,
    walls: Set<Pos>,
    objective: Pos,
) -> bool {
    &&& states.len() == results.len() + 1
    &&& forall|j: int|
        0 <= j < results.len() ==> #[trigger] step_of(
            strategy,
            states[j],
            states[j + 1],
            walls,
            objective,
            results[j],
        )
    &&& forall|j: int| 0 <= j < results.len() - 1 ==> !#[trigger] results[j]
}

impl Arena {
    /// Position in the frontier of the first node of lowest priority.
    pub fn select_min(&self) -> (r: usize)
        requires
            self.wf(),
            self.open@.len() > 0,
        ensures
            r == min_pos(self.nodes@, self.open@, self.open@.len() as int),
    {
        let mut best: usize = 0;
        let mut j: usize = 1;
        while j < self.open.len()
            invariant
                self.wf(),
                1 <= j <= self.open@.len(),
                best == min_pos(self.nodes@, self.open@, j as int),
            decreases self.open@.len() - j,
        {
            proof {
                lemma_min_pos(self.nodes@, self.open@, j as int);
            }
            if self.nodes[self.open[j]].priority < self.nodes[self.open[best]].priority {
                best = j;
            }
            j = j + 1;
        }
        best
    }

    /// Lowers the cost of node `idx`, now reached from `parent`.
    fn lower_cost(&mut self, idx: usize, parent: usize, cost: u64, priority: u64)
        requires
            old(self).wf(),
            idx < old(self).nodes@.len(),
            parent < old(self).nodes@.len(),
            old(self).nodes@[parent as int].cost < cost,
            cost < old(self).nodes@[idx as int].cost,
        ensures
            final(self).wf(),
            final(self).nodes@ == old(self).nodes@.update(
                idx as int,
                (Node { parent: Some(parent), index: idx, cost, priority, pos: old(self).nodes@[idx as int].pos }),
            ),
            final(self).start_pos == old(self).start_pos,
            final(self).greatest_weight == old(self).greatest_weight,
            final(self).found_objective == old(self).found_objective,
            final(self).open@ == old(self).open@,
    {
        let pos = self.nodes[idx].pos;
        self.nodes.set(idx, Node { parent: Some(parent), index: idx, cost, priority, pos });
        proof {
            let a = old(self).nodes@;
            let s = self.nodes@;
            assert(idx != 0);
            assert forall|k: int| 0 < k < s.len() implies #[trigger] parent_ok(s, k) by {
                assert(parent_ok(a, k));
            }
            assert forall|i: int, j: int|
                0 <= i < s.len() && 0 <= j < s.len() && i != j implies (#[trigger] s[i]).pos
                != (#[trigger] s[j]).pos by {
                assert(a[i].pos != a[j].pos);
            }
            assert forall|k: int| 0 <= k < s.len() implies in_grid((#[trigger] s[k]).pos)
                && s[k].cost <= self.greatest_weight by {
                assert(in_grid(a[k].pos) && a[k].cost <= self.greatest_weight);
            }
        }
    }

    /// Reaches `q` from `i` at cost `cost`: creates a node there if none stands there, or moves
    /// the node there below `i` if its cost is higher. Returns the node so reached, if any.
    fn relax(&mut self, i: usize, q: Pos, cost: u64, priority: u64) -> (r: Option<usize>)
        requires
            old(self).wf(),
            i < old(self).nodes@.len(),
            old(self).nodes@[i as int].cost < cost,
            in_grid(q),
            q != old(self).nodes@[i as int].pos,
        ensures
            final(self).wf(),
            final(self).start_pos == old(self).start_pos,
            final(self).found_objective == old(self).found_objective,
            final(self).open@ == old(self).open@,
            final(self).greatest_weight <= if cost > old(self).greatest_weight {
                cost
            } else {
                old(self).greatest_weight
            },
            costs_lowered(old(self).nodes@, final(self).nodes@),
            exists|m: int|
                0 <= m < final(self).nodes@.len() && (#[trigger] final(self).nodes@[m]).pos == q
                    && final(self).nodes@[m].cost <= cost,
            match r {
                Some(idx) => {
                    &&& idx < final(self).nodes@.len()
                    &&& final(self).nodes@[idx as int] == (Node {
                        parent: Some(i),
                        index: idx,
                        cost,
                        priority,
                        pos: q,
                    })
                    &&& forall|k: int|
                        0 <= k < old(self).nodes@.len() && k != idx
                            ==> #[trigger] final(self).nodes@[k] == old(self).nodes@[k]
                    &&& idx < old(self).nodes@.len() ==> cost < old(self).nodes@[idx as int].cost
                    &&& final(self).nodes@.len() == old(self).nodes@.len()
                        || (final(self).nodes@.len() == old(self).nodes@.len() + 1
                        && idx == old(self).nodes@.len())
                },
                None => final(self).nodes@ == old(self).nodes@,
            },
    {
        let prev = match self.node_exists(q) {
            Some(n) => Some((n.index, n.cost)),
            None => None,
        };
        match prev {
            None => {
                let idx = self.new_child(i, q, cost, priority);
                assert(self.nodes@[idx as int].pos == q);
                Some(idx)
            },
            Some((idx, c)) => {
                if cost < c {
                    self.lower_cost(idx, i, cost, priority);
                    assert(self.nodes@[idx as int].pos == q);
                    Some(idx)
                } else {
                    assert(self.nodes@[idx as int].pos == q);
                    None
                }
            },
        }
    }

    /// One layer step: expands every frontier node in order, each in the fixed direction
    /// order, creating a child on each unblocked, undiscovered neighbour; the children form
    /// the next frontier. Stops at the first child on `objective`. Returns whether the target
    /// was found or the next layer is empty.
    #[verifier::rlimit(60)]
    pub fn breadth_first_search(&mut self, walls: &Walls, objective: &Pos) -> (r: bool)
        requires
            old(self).wf(),
            old(self).greatest_weight < COST_LIMIT,
        ensures
            final(self).wf(),
            layer_step(*old(self), *final(self), walls@, *objective, r),
    {
        let ghost old_nodes = self.nodes@;
        let ghost old_open = self.open@;
        let ghost old_len = self.nodes@.len() as int;
        proof {
            assert forall|t: int| 0 <= t < old_open.len() implies #[trigger] old_open[t] < old_len by {
                assert(old(self).open@[t] < old(self).nodes@.len());
            }
        }
        let mut just_searched: Vec<usize> = Vec::new();
        let mut found = false;
        let mut j: usize = 0;
        while j < self.open.len() && !found
            invariant
                self.wf(),
                self.open@ == old_open,
                self.start_pos == old(self).start_pos,
                self.found_objective == old(self).found_objective,
                old(self).greatest_weight < COST_LIMIT,
                old(self).wf(),
                self.greatest_weight <= old(self).greatest_weight + 1,
                old_nodes == old(self).nodes@,
                old_open == old(self).open@,
                old_len == old_nodes.len(),
                forall|t: int| 0 <= t < old_open.len() ==> #[trigger] old_open[t] < old_len,
                grows(old_nodes, self.nodes@),
                forall|m: int|
                    old_len <= m < self.nodes@.len() ==> #[trigger] layer_child(
                        old_nodes,
                        old_open,
                        self.nodes@,
                        walls@,
                        m,
                    ),
                layer_ordered(old_nodes, old_open, self.nodes@),
                layer_first(old_nodes, old_open, self.nodes@),
                layer_before(old_nodes, old_open, self.nodes@, j as int, 0),
                just_searched@ == fresh_ids(old_len, self.nodes@.len() as int),
                found ==> self.nodes@.len() > old_len && self.nodes@.last().pos == *objective,
                found ==> forall|t: int|
                    0 <= t < old_open.len() && self.nodes@.last().parent == Some(
                        #[trigger] old_open[t],
                    ) ==> covered_before(
                        old_nodes,
                        old_open,
                        self.nodes@,
                        walls@,
                        t,
                        dir_of(old_nodes[old_open[t] as int].pos, self.nodes@.last().pos),
                    ),
                !found ==> forall|m: int|
                    old_len <= m < self.nodes@.len() ==> (#[trigger] self.nodes@[m]).pos
                        != *objective,
                !found ==> covered_before(old_nodes, old_open, self.nodes@, walls@, j as int, 0),
                0 <= j <= self.open@.len(),
            decreases self.open@.len() - j,
        {
            let i = self.open[j];
            let mut d: usize = 0;
            while d < 4 && !found
                invariant
                    self.wf(),
                    self.open@ == old_open,
                    self.start_pos == old(self).start_pos,
                    self.found_objective == old(self).found_objective,
                    old(self).greatest_weight < COST_LIMIT,
                    old(self).wf(),
                    i < old_len,
                    self.greatest_weight <= old(self).greatest_weight + 1,
                    old_nodes == old(self).nodes@,
                    old_open == old(self).open@,
                    old_len == old_nodes.len(),
                    forall|t: int| 0 <= t < old_open.len() ==> #[trigger] old_open[t] < old_len,
                    grows(old_nodes, self.nodes@),
                    forall|m: int|
                        old_len <= m < self.nodes@.len() ==> #[trigger] layer_child(
                            old_nodes,
                            old_open,
                            self.nodes@,
                            walls@,
                            m,
                        ),
                    layer_ordered(old_nodes, old_open, self.nodes@),
                    layer_first(old_nodes, old_open, self.nodes@),
                    layer_before(old_nodes, old_open, self.nodes@, j as int, d as int),
                    just_searched@ == fresh_ids(old_len, self.nodes@.len() as int),
                    found ==> self.nodes@.len() > old_len && self.nodes@.last().pos == *objective,
                    found ==> forall|t: int|
                        0 <= t < old_open.len() && self.nodes@.last().parent == Some(
                            #[trigger] old_open[t],
                        ) ==> covered_before(
                            old_nodes,
                            old_open,
                            self.nodes@,
                            walls@,
                            t,
                            dir_of(old_nodes[old_open[t] as int].pos, self.nodes@.last().pos),
                        ),
                    !found ==> forall|m: int|
                        old_len <= m < self.nodes@.len() ==> (#[trigger] self.nodes@[m]).pos
                            != *objective,
                    !found ==> covered_before(
                        old_nodes,
                        old_open,
                        self.nodes@,
                        walls@,
                        j as int,
                        d as int,
                    ),
                    0 <= j < self.open@.len(),
                    i == old_open[j as int],
                    0 <= d <= 4,
                decreases 4 - d,
            {
                let ipos = self.nodes[i].pos;
                let icost = self.nodes[i].cost;
                assert(self.nodes@[i as int] == old_nodes[i as int]);
                let ghost before = self.nodes@;
                let nb = neighbor(ipos, d);
                let mut made = false;
                if let Some(q) = nb {
                    if self.node_exists(q).is_none() && !walls.contains(&q) {
                        let idx = self.new_child(i, q, icost + 1, 0);
                        just_searched.push(idx);
                        made = true;
                        proof {
                            let s = self.nodes@;
                            assert(grows(before, s));
                            assert(s[idx as int].pos == q);
                            assert(neighbor_of(old_nodes[i as int].pos, d as int) == Some(q));
                            assert(is_neighbor(s[i as int].pos, q));
                            lemma_layer_push(
                                old_nodes,
                                old_open,
                                before,
                                s,
                                walls@,
                                j as int,
                                d as int,
                                q,
                            );
                            lemma_dir_of_neighbor(ipos, d as int, q);
                            assert forall|m: int| old_len <= m < s.len() implies #[trigger] layer_child(
                                old_nodes,
                                old_open,
                                s,
                                walls@,
                                m,
                            ) by {
                                if m < s.len() - 1 {
                                    assert(layer_child(old_nodes, old_open, before, walls@, m));
                                    let t = choose|t: int|
                                        0 <= t < old_open.len() && #[trigger] old_open[t] as int
                                            == before[m].parent->0 as int && child_of(
                                            before,
                                            walls@,
                                            m,
                                            old_open[t] as int,
                                        ) && before[m].cost == old_nodes[old_open[t] as int].cost
                                            + 1 && before[m].priority == 0;
                                    assert(s[old_open[t] as int] == before[old_open[t] as int]);
                                } else {
                                    assert(old_open[j as int] as int == s[m].parent->0 as int);
                                }
                            }
                            assert(just_searched@ =~= fresh_ids(old_len, s.len() as int));
                            assert forall|t: int|
                                0 <= t < old_open.len() && s.last().parent == Some(
                                    #[trigger] old_open[t],
                                ) implies covered_before(
                                old_nodes,
                                old_open,
                                s,
                                walls@,
                                t,
                                dir_of(old_nodes[old_open[t] as int].pos, s.last().pos),
                            ) by {
                                assert(old_open[t] == old_open[j as int]);
                                assert(t == j);
                            }
                        }
                        if same_pos(&q, objective) {
                            found = true;
                        }
                    }
                }
                proof {
                    if !made {
                        assert(self.nodes@ == before);
                        assert(covered(before, walls@, old_nodes[old_open[j as int] as int].pos, d as int));
                        assert forall|t2: int, e: int|
                            0 <= t2 < old_open.len() && 0 <= e < 4 && key_before(t2, e, j as int, d + 1) implies #[trigger] covered(
                            before,
                            walls@,
                            old_nodes[#[trigger] old_open[t2] as int].pos,
                            e,
                        ) by {
                            if !key_before(t2, e, j as int, d as int) {
                                assert(old_open[t2] == old_open[j as int]);
                            }
                        }
                    }
                    assert forall|m: int, t: int|
                        old_len <= m < self.nodes@.len() && 0 <= t < old_open.len() && (
                        #[trigger] self.nodes@[m]).parent == Some(#[trigger] old_open[t]) implies key_before(
                        t,
                        dir_of(old_nodes[old_open[t] as int].pos, self.nodes@[m].pos),
                        j as int,
                        d + 1,
                    ) by {
                    }
                }
                d = d + 1;
            }
            proof {
                assert forall|m: int, t: int|
                    old_len <= m < self.nodes@.len() && 0 <= t < old_open.len() && (
                    #[trigger] self.nodes@[m]).parent == Some(#[trigger] old_open[t]) implies key_before(
                    t,
                    dir_of(old_nodes[old_open[t] as int].pos, self.nodes@[m].pos),
                    j + 1,
                    0,
                ) by {
                }
                if !found {
                    assert forall|t2: int, e: int|
                        0 <= t2 < old_open.len() && 0 <= e < 4 && key_before(t2, e, j + 1, 0) implies #[trigger] covered(
                        self.nodes@,
                        walls@,
                        old_nodes[#[trigger] old_open[t2] as int].pos,
                        e,
                    ) by {
                        assert(key_before(t2, e, j as int, 4));
                    }
                }
            }
            j = j + 1;
        }
        self.open = just_searched;
        if found {
            self.found_objective = Some(self.nodes.len() - 1);
        }
        proof {
            assert(self.open@.no_duplicates());
            if !found {
                assert forall|t: int| 0 <= t < old_open.len() implies expanded(
                    self.nodes@,
                    walls@,
                    old_nodes[#[trigger] old_open[t] as int].pos,
                ) by {
                    assert forall|e: int| 0 <= e < 4 implies #[trigger] covered(
                        self.nodes@,
                        walls@,
                        old_nodes[old_open[t] as int].pos,
                        e,
                    ) by {
                        assert(key_before(t, e, j as int, 0));
                    }
                }
            }
            if layered(old_nodes) {
                lemma_layer_step_layered(old_nodes, old_open, self.nodes@, walls@, self.start_pos);
            }
        }
        self.open.len() == 0 || found
    }

    /// One greedy step: takes the first frontier node of lowest priority off the frontier and
    /// creates a child on each unblocked, undiscovered neighbour, in the fixed direction order,
    /// with priority its distance to `objective`. Stops at a child on `objective`; otherwise
    /// the children join the frontier. Returns whether the target was found or the frontier
    /// was empty.
    pub fn best_first_search(&mut self, walls: &Walls, objective: &Pos) -> (r: bool)
        requires
            old(self).wf(),
            old(self).greatest_weight < COST_LIMIT,
            in_grid(*objective),
        ensures
            final(self).wf(),
            greedy_step(*old(self), *final(self), walls@, *objective, r),
    {
        if self.open.len() == 0 {
            return true;
        }
        let p = self.select_min();
        proof {
            lemma_min_pos(self.nodes@, self.open@, self.open@.len() as int);
        }
        let i = self.open[p];
        self.open.remove(p);
        let ghost old_nodes = self.nodes@;
        let ghost old_len = self.nodes@.len() as int;
        let ghost open1 = self.open@;
        assert(i < old_len);
        let ipos = self.nodes[i].pos;
        let new_cost = self.nodes[i].cost + 20;
        proof {
            assert forall|a: int, b: int|
                0 <= a < open1.len() && 0 <= b < open1.len() && a != b implies open1[a]
                != open1[b] by {
                let a2 = if a < p { a } else { a + 1 };
                let b2 = if b < p { b } else { b + 1 };
                assert(old(self).open@[a2] != old(self).open@[b2]);
            }
            assert forall|j: int| 0 <= j < open1.len() implies #[trigger] open1[j] < old_len by {
                let j2 = if j < p { j } else { j + 1 };
                assert(old(self).open@[j2] < old_len);
            }
        }
        let mut just_searched: Vec<usize> = Vec::new();
        let mut d: usize = 0;
        while d < 4
            invariant
                self.wf(),
                self.open@ == open1,
                open1 == old(self).open@.remove(p as int),
                forall|j: int| 0 <= j < open1.len() ==> #[trigger] open1[j] < old_len,
                old(self).open@.len() > 0,
                p == min_pos(old(self).nodes@, old(self).open@, old(self).open@.len() as int),
                i == old(self).open@[p as int],
                self.start_pos == old(self).start_pos,
                self.found_objective == old(self).found_objective,
                old(self).greatest_weight < COST_LIMIT,
                old(self).wf(),
                in_grid(*objective),
                self.greatest_weight <= old(self).greatest_weight + 20,
                old_nodes == old(self).nodes@,
                old_len == old_nodes.len(),
                i < old_len,
                ipos == old_nodes[i as int].pos,
                new_cost == old_nodes[i as int].cost + 20,
                grows(old_nodes, self.nodes@),
                forall|m: int|
                    old_len <= m < self.nodes@.len() ==> #[trigger] priced_child(
                        self.nodes@,
                        walls@,
                        m,
                        i as int,
                        new_cost as int,
                        manhattan(*objective, self.nodes@[m].pos),
                    ),
                just_searched@ == fresh_ids(old_len, self.nodes@.len() as int),
                forall|m: int|
                    old_len <= m < self.nodes@.len() ==> (#[trigger] self.nodes@[m]).pos
                        != *objective,
                forall|e: int| 0 <= e < d ==> #[trigger] covered(self.nodes@, walls@, ipos, e),
                forall|m: int|
                    old_len <= m < self.nodes@.len() ==> #[trigger] dir_of(ipos, self.nodes@[m].pos)
                        < d,
                forall|m1: int, m2: int|
                    old_len <= m1 < m2 < self.nodes@.len() ==> #[trigger] dir_of(
                        ipos,
                        self.nodes@[m1].pos,
                    ) < #[trigger] dir_of(ipos, self.nodes@[m2].pos),
                0 <= d <= 4,
            decreases 4 - d,
        {
            if let Some(q) = neighbor(ipos, d) {
                if self.node_exists(q).is_none() && !walls.contains(&q) {
                    let ghost before = self.nodes@;
                    let h = manhattan_distance(*objective, q);
                    let idx = self.new_child(i, q, new_cost, h);
                    just_searched.push(idx);
                    proof {
                        let s = self.nodes@;
                        assert(grows(before, s));
                        assert(neighbor_of(old_nodes[i as int].pos, d as int) == Some(q));
                        assert(is_neighbor(s[i as int].pos, q));
                        lemma_dir_of_neighbor(ipos, d as int, q);
                        assert forall|m: int| old_len <= m < s.len() implies #[trigger] dir_of(
                            ipos,
                            s[m].pos,
                        ) < d + 1 by {
                            if m < s.len() - 1 {
                                assert(s[m] == before[m]);
                            }
                        }
                        assert forall|m1: int, m2: int|
                            old_len <= m1 < m2 < s.len() implies #[trigger] dir_of(
                            ipos,
                            s[m1].pos,
                        ) < #[trigger] dir_of(ipos, s[m2].pos) by {
                            assert(s[m1] == before[m1]);
                            if m2 < s.len() - 1 {
                                assert(s[m2] == before[m2]);
                            }
                        }
                        assert forall|m: int| old_len <= m < s.len() implies #[trigger] priced_child(
                            s,
                            walls@,
                            m,
                            i as int,
                            new_cost as int,
                            manhattan(*objective, s[m].pos),
                        ) by {
                            if m < s.len() - 1 {
                                assert(priced_child(
                                    before,
                                    walls@,
                                    m,
                                    i as int,
                                    new_cost as int,
                                    manhattan(*objective, before[m].pos),
                                ));
                            }
                        }
                        assert(just_searched@ =~= fresh_ids(old_len, s.len() as int));
                        assert forall|e: int| 0 <= e <= d implies #[trigger] covered(
                            s,
                            walls@,
                            ipos,
                            e,
                        ) by {
                            if e < d {
                                lemma_covered_grows(before, s, walls@, ipos, e);
                            } else {
                                assert(s[idx as int].pos == q);
                            }
                        }
                    }
                    if same_pos(&q, objective) {
                        self.found_objective = Some(idx);
                        return true;
                    }
                }
            }
            d = d + 1;
        }
        let ghost mid = self.open@;
        let ghost nodes2 = self.nodes@;
        let ghost found2 = self.found_objective;
        let ghost greatest2 = self.greatest_weight;
        let mut t: usize = 0;
        while t < just_searched.len()
            invariant
                self.wf(),
                self.open@ == mid + just_searched@.subrange(0, t as int),
                mid == open1,
                forall|j: int| 0 <= j < mid.len() ==> #[trigger] mid[j] < old_len,
                self.nodes@ == nodes2,
                self.found_objective == found2,
                self.greatest_weight == greatest2,
                self.start_pos == old(self).start_pos,
                nodes2.len() >= old_len,
                old_len == old(self).nodes@.len(),
                just_searched@ == fresh_ids(old_len, nodes2.len() as int),
                0 <= t <= just_searched@.len(),
            decreases just_searched@.len() - t,
        {
            let js = just_searched[t];
            let n_nodes = self.nodes.len();
            proof {
                assert(old_len + t < n_nodes);
                assert(js == fresh_ids(old_len, nodes2.len() as int)[t as int]);
                assert(js as int == old_len + t);
                assert forall|j: int| 0 <= j < self.open@.len() implies self.open@[j] != js by {
                    if j < mid.len() {
                        assert(mid[j] < old_len);
                    } else {
                        assert(self.open@[j] == just_searched@[j - mid.len()]);
                        assert(just_searched@[j - mid.len()] == fresh_ids(
                            old_len,
                            nodes2.len() as int,
                        )[j - mid.len()]);
                    }
                }
                assert(js < self.nodes@.len());
            }
            self.open.push(js);
            t = t + 1;
            assert(self.open@ =~= mid + just_searched@.subrange(0, t as int));
        }
        assert(just_searched@.subrange(0, t as int) =~= just_searched@);
        false
    }

    /// One cost-aware step: takes the first frontier node `i` of lowest priority off the
    /// frontier and, in the fixed direction order, visits each unblocked neighbour at cost
    /// `cost(i) + 20`: an undiscovered one gets a new child, a discovered one of higher cost is
    /// moved below `i` at the lower cost; either way its priority is that cost plus its distance
    /// to `objective`. Stops at such a node on `objective`; otherwise each one joins the
    /// frontier where it is not on it yet. Returns whether the target was found or the
    /// frontier was empty.
    pub fn a_search_star(&mut self, walls: &Walls, objective: &Pos) -> (r: bool)
        requires
            old(self).wf(),
            old(self).greatest_weight < COST_LIMIT,
            in_grid(*objective),
        ensures
            final(self).wf(),
            cost_aware_step(*old(self), *final(self), walls@, *objective, r),
    {
        if self.open.len() == 0 {
            return true;
        }
        let p = self.select_min();
        proof {
            lemma_min_pos(self.nodes@, self.open@, self.open@.len() as int);
        }
        let i = self.open[p];
        self.open.remove(p);
        let ghost old_nodes = self.nodes@;
        let ghost old_len = self.nodes@.len() as int;
        let ghost open1 = self.open@;
        assert(i < old_len);
        let ipos = self.nodes[i].pos;
        let new_cost = self.nodes[i].cost + 20;
        proof {
            assert forall|a: int, b: int|
                0 <= a < open1.len() && 0 <= b < open1.len() && a != b implies open1[a]
                != open1[b] by {
                let a2 = if a < p { a } else { a + 1 };
                let b2 = if b < p { b } else { b + 1 };
                assert(old(self).open@[a2] != old(self).open@[b2]);
            }
            assert forall|j: int| 0 <= j < open1.len() implies #[trigger] open1[j] < old_len by {
                let j2 = if j < p { j } else { j + 1 };
                assert(old(self).open@[j2] < old_len);
            }
        }
        let mut just_searched: Vec<usize> = Vec::new();
        let mut d: usize = 0;
        while d < 4
            invariant
                self.wf(),
                self.open@ == open1,
                open1 == old(self).open@.remove(p as int),
                old(self).open@.len() > 0,
                p == min_pos(old(self).nodes@, old(self).open@, old(self).open@.len() as int),
                i == old(self).open@[p as int],
                self.start_pos == old(self).start_pos,
                self.found_objective == old(self).found_objective,
                old(self).greatest_weight < COST_LIMIT,
                old(self).wf(),
                in_grid(*objective),
                self.greatest_weight <= old(self).greatest_weight + 20,
                old_nodes == old(self).nodes@,
                old_len == old_nodes.len(),
                i < old_len,
                ipos == old_nodes[i as int].pos,
                new_cost == old_nodes[i as int].cost + 20,
                self.nodes@[i as int] == old_nodes[i as int],
                costs_lowered(old_nodes, self.nodes@),
                forall|k: int|
                    0 <= k < old_len && touched(old_nodes, self.nodes@, k) ==> #[trigger] self.nodes@[k].cost
                        < old_nodes[k].cost,
                forall|k: int|
                    0 <= k < self.nodes@.len() && touched(old_nodes, self.nodes@, k)
                        ==> #[trigger] priced_child(
                        self.nodes@,
                        walls@,
                        k,
                        i as int,
                        new_cost as int,
                        new_cost + manhattan(self.nodes@[k].pos, *objective),
                    ),
                forall|k: int|
                    0 <= k < self.nodes@.len() && touched(old_nodes, self.nodes@, k) ==> (
                    #[trigger] self.nodes@[k]).pos != *objective,
                forall|k: int|
                    0 <= k < self.nodes@.len() && touched(old_nodes, self.nodes@, k)
                        ==> just_searched@.contains(k as usize),
                forall|t: int|
                    0 <= t < just_searched@.len() ==> #[trigger] just_searched@[t]
                        < self.nodes@.len() && touched(
                        old_nodes,
                        self.nodes@,
                        just_searched@[t] as int,
                    ),
                forall|e: int|
                    0 <= e < d ==> #[trigger] cheaply_covered(
                        self.nodes@,
                        walls@,
                        ipos,
                        new_cost as int,
                        e,
                    ),
                forall|k: int|
                    0 <= k < self.nodes@.len() && touched(old_nodes, self.nodes@, k) ==> #[trigger] dir_of(
                        ipos,
                        self.nodes@[k].pos,
                    ) < d,
                forall|k1: int, k2: int|
                    old_len <= k1 < k2 < self.nodes@.len() ==> #[trigger] dir_of(
                        ipos,
                        self.nodes@[k1].pos,
                    ) < #[trigger] dir_of(ipos, self.nodes@[k2].pos),
                forall|t1: int, t2: int|
                    0 <= t1 < t2 < just_searched@.len() ==> dir_of(
                        ipos,
                        self.nodes@[#[trigger] just_searched@[t1] as int].pos,
                    ) < dir_of(ipos, self.nodes@[#[trigger] just_searched@[t2] as int].pos),
                0 <= d <= 4,
            decreases 4 - d,
        {
            if let Some(q) = neighbor(ipos, d) {
                if !walls.contains(&q) {
                    let ghost before = self.nodes@;
                    let ghost js_before = just_searched@;
                    let h = manhattan_distance(q, *objective);
                    proof {
                        assert(neighbor_of(old_nodes[i as int].pos, d as int) == Some(q));
                        assert(is_neighbor(old_nodes[i as int].pos, q));
                    }
                    let hit = self.relax(i, q, new_cost, new_cost + h);
                    if let Some(idx) = hit {
                        just_searched.push(idx);
                    }
                    proof {
                        let s = self.nodes@;
                        assert(s[i as int] == before[i as int]);
                        assert forall|k: int|
                            0 <= k < old_len && touched(old_nodes, s, k) implies #[trigger] s[k].cost
                            < old_nodes[k].cost by {
                            if hit != Some(k as usize) {
                                assert(s[k] == before[k]);
                            } else {
                                assert(before[k].cost <= old_nodes[k].cost);
                            }
                        }
                        lemma_dir_of_neighbor(ipos, d as int, q);
                        assert forall|k: int|
                            0 <= k < s.len() && touched(old_nodes, s, k) implies #[trigger] dir_of(
                            ipos,
                            s[k].pos,
                        ) < d + 1 by {
                            if hit != Some(k as usize) {
                                assert(s[k] == before[k]);
                                assert(touched(old_nodes, before, k));
                            }
                        }
                        assert forall|k1: int, k2: int|
                            old_len <= k1 < k2 < s.len() implies #[trigger] dir_of(
                            ipos,
                            s[k1].pos,
                        ) < #[trigger] dir_of(ipos, s[k2].pos) by {
                            if k2 < before.len() {
                                if hit != Some(k1 as usize) {
                                    assert(s[k1] == before[k1]);
                                } else {
                                    assert(touched(old_nodes, before, k2));
                                }
                                if hit != Some(k2 as usize) {
                                    assert(s[k2] == before[k2]);
                                } else {
                                    assert(touched(old_nodes, before, k1));
                                }
                            } else {
                                assert(s[k1] == before[k1]);
                                assert(touched(old_nodes, before, k1));
                            }
                        }
                        assert forall|t1: int, t2: int|
                            0 <= t1 < t2 < just_searched@.len() implies dir_of(
                            ipos,
                            s[#[trigger] just_searched@[t1] as int].pos,
                        ) < dir_of(ipos, s[#[trigger] just_searched@[t2] as int].pos) by {
                            let k1 = just_searched@[t1] as int;
                            let k2 = just_searched@[t2] as int;
                            assert(js_before[t1] == just_searched@[t1]);
                            assert(s[k1].pos == before[k1].pos);
                            if t2 < js_before.len() {
                                assert(js_before[t2] == just_searched@[t2]);
                                assert(s[k2].pos == before[k2].pos);
                            } else {
                                assert(touched(old_nodes, before, k1));
                            }
                        }
                        assert forall|k: int|
                            0 <= k < s.len() && touched(old_nodes, s, k) implies #[trigger] priced_child(
                            s,
                            walls@,
                            k,
                            i as int,
                            new_cost as int,
                            new_cost + manhattan(s[k].pos, *objective),
                        ) && s[k].pos != *objective || hit == Some(k as usize) by {
                            if hit != Some(k as usize) {
                                assert(s[k] == before[k]);
                                assert(touched(old_nodes, before, k));
                                assert(priced_child(
                                    before,
                                    walls@,
                                    k,
                                    i as int,
                                    new_cost as int,
                                    new_cost + manhattan(before[k].pos, *objective),
                                ));
                            }
                        }
                        assert forall|k: int|
                            0 <= k < s.len() && touched(old_nodes, s, k) implies just_searched@.contains(
                            k as usize,
                        ) by {
                            if hit == Some(k as usize) {
                                assert(just_searched@[just_searched@.len() - 1] == k as usize);
                            } else {
                                assert(s[k] == before[k]);
                                assert(touched(old_nodes, before, k));
                                let w = choose|w: int| 0 <= w < js_before.len() && js_before[w] == k as usize;
                                assert(just_searched@[w] == k as usize);
                            }
                        }
                        assert forall|t: int|
                            0 <= t < just_searched@.len() implies #[trigger] just_searched@[t]
                            < s.len() && touched(old_nodes, s, just_searched@[t] as int) by {
                            if t < js_before.len() {
                                assert(just_searched@[t] == js_before[t]);
                                let k = js_before[t] as int;
                                if hit != Some(k as usize) {
                                    assert(s[k] == before[k]);
                                }
                            } else {
                                let k = hit->0 as int;
                                if k < old_nodes.len() {
                                    assert(s[k].parent == Some(i));
                                    assert(s[k].cost < before[k].cost);
                                    assert(before[k].cost <= old_nodes[k].cost);
                                    assert(s[k] != old_nodes[k]);
                                }
                            }
                        }
                        assert forall|e: int| 0 <= e <= d implies #[trigger] cheaply_covered(
                            s,
                            walls@,
                            ipos,
                            new_cost as int,
                            e,
                        ) by {
                            if e < d {
                                lemma_cheaply_covered_lowered(
                                    before,
                                    s,
                                    walls@,
                                    ipos,
                                    new_cost as int,
                                    e,
                                );
                            }
                        }
                    }
                    if let Some(idx) = hit {
                        if same_pos(&q, objective) {
                            self.found_objective = Some(idx);
                            return true;
                        }
                    }
                }
            }
            d = d + 1;
        }
        let ghost mid = self.open@;
        let ghost nodes2 = self.nodes@;
        let ghost found2 = self.found_objective;
        let ghost greatest2 = self.greatest_weight;
        let mut t: usize = 0;
        while t < just_searched.len()
            invariant
                self.wf(),
                self.open@.subrange(0, mid.len() as int) == mid,
                self.open@.len() >= mid.len(),
                mid == open1,
                forall|u: int|
                    mid.len() <= u < self.open@.len() ==> touched(
                        old_nodes,
                        nodes2,
                        #[trigger] self.open@[u] as int,
                    ),
                forall|u: int| 0 <= u < t ==> self.open@.contains(#[trigger] just_searched@[u]),
                forall|u: int|
                    0 <= u < just_searched@.len() ==> #[trigger] just_searched@[u] < nodes2.len()
                        && touched(old_nodes, nodes2, just_searched@[u] as int),
                forall|u1: int, u2: int|
                    mid.len() <= u1 < u2 < self.open@.len() ==> dir_of(
                        ipos,
                        nodes2[#[trigger] self.open@[u1] as int].pos,
                    ) < dir_of(ipos, nodes2[#[trigger] self.open@[u2] as int].pos),
                forall|u: int, t2: int|
                    mid.len() <= u < self.open@.len() && t <= t2 < just_searched@.len() ==> dir_of(
                        ipos,
                        nodes2[#[trigger] self.open@[u] as int].pos,
                    ) < dir_of(ipos, nodes2[#[trigger] just_searched@[t2] as int].pos),
                forall|t1: int, t2: int|
                    0 <= t1 < t2 < just_searched@.len() ==> dir_of(
                        ipos,
                        nodes2[#[trigger] just_searched@[t1] as int].pos,
                    ) < dir_of(ipos, nodes2[#[trigger] just_searched@[t2] as int].pos),
                self.nodes@ == nodes2,
                self.found_objective == found2,
                self.greatest_weight == greatest2,
                self.start_pos == old(self).start_pos,
                0 <= t <= just_searched@.len(),
            decreases just_searched@.len() - t,
        {
            let js = just_searched[t];
            if !contains_id(&self.open, js) {
                let ghost o = self.open@;
                self.open.push(js);
                proof {
                    assert(self.open@.subrange(0, mid.len() as int) =~= o.subrange(0, mid.len() as int));
                    assert forall|u: int| 0 <= u <= t implies self.open@.contains(#[trigger] just_searched@[u]) by {
                        if u < t {
                            let w = choose|w: int| 0 <= w < o.len() && o[w] == just_searched@[u];
                            assert(self.open@[w] == just_searched@[u]);
                        } else {
                            assert(self.open@[o.len() as int] == js);
                        }
                    }
                    assert forall|u1: int, u2: int|
                        mid.len() <= u1 < u2 < self.open@.len() implies dir_of(
                        ipos,
                        nodes2[#[trigger] self.open@[u1] as int].pos,
                    ) < dir_of(ipos, nodes2[#[trigger] self.open@[u2] as int].pos) by {
                        assert(self.open@[u1] == o[u1]);
                        if u2 < o.len() {
                            assert(self.open@[u2] == o[u2]);
                        }
                    }
                    assert forall|u: int, t2: int|
                        mid.len() <= u < self.open@.len() && t + 1 <= t2 < just_searched@.len() implies dir_of(
                        ipos,
                        nodes2[#[trigger] self.open@[u] as int].pos,
                    ) < dir_of(ipos, nodes2[#[trigger] just_searched@[t2] as int].pos) by {
                        if u < o.len() {
                            assert(self.open@[u] == o[u]);
                        }
                    }
                    assert forall|a: int, b: int|
                        0 <= a < self.open@.len() && 0 <= b < self.open@.len() && a != b implies self.open@[a]
                        != self.open@[b] by {
                        if a < o.len() && b < o.len() {
                            assert(o[a] != o[b]);
                        } else if a < o.len() {
                            assert(o.contains(o[a]));
                        } else {
                            assert(o.contains(o[b]));
                        }
                    }
                }
            }
            t = t + 1;
        }
        proof {
            assert forall|k: int|
                0 <= k < self.nodes@.len() && touched(old_nodes, self.nodes@, k) implies self.open@.contains(
                k as usize,
            ) by {
                let u = choose|u: int| 0 <= u < just_searched@.len() && just_searched@[u] == k as usize;
                assert(self.open@.contains(just_searched@[u]));
            }
        }
        false
    }

    /// One step of `strategy`. Returns whether the search is over: the target was found or
    /// the frontier ran out.
    pub fn advance(&mut self, strategy: Strategy, walls: &Walls, objective: &Pos) -> (r: bool)
        requires
            old(self).wf(),
            old(self).greatest_weight < COST_LIMIT,
            in_grid(*objective),
        ensures
            final(self).wf(),
            final(self).start_pos == old(self).start_pos,
            final(self).greatest_weight <= old(self).greatest_weight + 20,
            old(self).avoids(walls@) ==> final(self).avoids(walls@),
            r ==> final(self).open@.len() == 0 || (final(self).found_objective matches Some(f)
                && final(self).nodes@[f as int].pos == *objective),
            !r ==> final(self).found_objective == old(self).found_objective,
            step_of(strategy, *old(self), *final(self), walls@, *objective, r),
    {
        let ghost o = self.nodes@;
        match strategy {
            Strategy::Layer => {
                let r = self.breadth_first_search(walls, objective);
                proof {
                    assert forall|k: int| 0 < k < self.nodes@.len() && old(self).avoids(walls@) implies !walls@.contains(
                        #[trigger] self.nodes@[k].pos,
                    ) by {
                        if k >= o.len() {
                            assert(layer_child(o, old(self).open@, self.nodes@, walls@, k));
                        } else {
                            assert(self.nodes@[k] == o[k]);
                        }
                    }
                }
                r
            },
            Strategy::Greedy => {
                let r = self.best_first_search(walls, objective);
                proof {
                    if old(self).open@.len() > 0 {
                        lemma_min_pos(o, old(self).open@, old(self).open@.len() as int);
                    }
                    assert forall|k: int| 0 < k < self.nodes@.len() && old(self).avoids(walls@) implies !walls@.contains(
                        #[trigger] self.nodes@[k].pos,
                    ) by {
                        if k >= o.len() {
                            let i = old(self).open@[min_pos(o, old(self).open@, old(self).open@.len() as int)] as int;
                            assert(priced_child(
                                self.nodes@,
                                walls@,
                                k,
                                i,
                                o[i].cost + 20,
                                manhattan(*objective, self.nodes@[k].pos),
                            ));
                        } else {
                            assert(self.nodes@[k] == o[k]);
                        }
                    }
                }
                r
            },
            Strategy::CostAware => {
                let r = self.a_search_star(walls, objective);
                proof {
                    if old(self).open@.len() > 0 {
                        lemma_min_pos(o, old(self).open@, old(self).open@.len() as int);
                    }
                    assert forall|k: int| 0 < k < self.nodes@.len() && old(self).avoids(walls@) implies !walls@.contains(
                        #[trigger] self.nodes@[k].pos,
                    ) by {
                        if touched(o, self.nodes@, k) {
                            let i = old(self).open@[min_pos(o, old(self).open@, old(self).open@.len() as int)] as int;
                            assert(priced_child(
                                self.nodes@,
                                walls@,
                                k,
                                i,
                                o[i].cost + 20,
                                o[i].cost + 20 + manhattan(self.nodes@[k].pos, *objective),
                            ));
                        } else {
                            assert(self.nodes@[k] == o[k]);
                        }
                    }
                }
                r
            },
        }
    }

    /// Runs `strategy` step by step until a step reports the search over, for at most
    /// `max_steps` steps, and while the costs stay under `COST_LIMIT`. Returns whether the last
    /// step reported the search over; where it returns false, it took `max_steps` steps or the
    /// costs reached `COST_LIMIT`.
    pub fn run_to_completion(
        &mut self,
        strategy: Strategy,
        walls: &Walls,
        objective: &Pos,
        max_steps: usize,
    ) -> (r: bool)
        requires
            old(self).wf(),
            in_grid(*objective),
        ensures
            final(self).wf(),
            final(self).start_pos == old(self).start_pos,
            old(self).avoids(walls@) ==> final(self).avoids(walls@),
            r ==> final(self).open@.len() == 0 || (final(self).found_objective matches Some(f)
                && final(self).nodes@[f as int].pos == *objective),
            !r ==> final(self).found_objective == old(self).found_objective,
            exists|states: Seq<Arena>, results: Seq<bool>|
                #[trigger] is_run(strategy, states, results, walls@, *objective)
                    && states[0] == *old(self) && states.last() == *final(self)
                    && results.len() <= max_steps
                    && r == (results.len() > 0 && results.last())
                    && (!r ==> results.len() == max_steps || final(self).greatest_weight >= COST_LIMIT),
    {
        let ghost mut states: Seq<Arena> = seq![*self];
        let ghost mut results: Seq<bool> = Seq::empty();
        let mut steps: usize = 0;
        while steps < max_steps && self.greatest_weight < COST_LIMIT
            invariant
                self.wf(),
                in_grid(*objective),
                self.start_pos == old(self).start_pos,
                old(self).avoids(walls@) ==> self.avoids(walls@),
                self.found_objective == old(self).found_objective,
                0 <= steps <= max_steps,
                is_run(strategy, states, results, walls@, *objective),
                states[0] == *old(self),
                states.last() == *self,
                results.len() == steps,
                forall|j: int| 0 <= j < results.len() ==> !#[trigger] results[j],
            decreases max_steps - steps,
        {
            let done = self.advance(strategy, walls, objective);
            proof {
                let s0 = states;
                let r0 = results;
                states = states.push(*self);
                results = results.push(done);
                assert forall|j: int| 0 <= j < results.len() implies #[trigger] step_of(
                    strategy,
                    states[j],
                    states[j + 1],
                    walls@,
                    *objective,
                    results[j],
                ) by {
                    if j < r0.len() {
                        assert(states[j] == s0[j]);
                        assert(states[j + 1] == s0[j + 1]);
                        assert(results[j] == r0[j]);
                        assert(step_of(strategy, s0[j], s0[j + 1], walls@, *objective, r0[j]));
                    } else {
                        assert(states[j] == s0[s0.len() - 1]);
                    }
                }
                assert forall|j: int| 0 <= j < results.len() - 1 implies !#[trigger] results[j] by {
                    assert(results[j] == r0[j]);
                }
                assert(states[0] == s0[0]);
                assert(is_run(strategy, states, results, walls@, *objective));
            }
            if done {
                return true;
            }
            proof {
                assert forall|j: int| 0 <= j < results.len() implies !#[trigger] results[j] by {
                    if j < results.len() - 1 {
                    }
                }
            }
            steps = steps + 1;
        }
        proof {
            assert(is_run(strategy, states, results, walls@, *objective));
        }
        false
    }
}

} // verus!
