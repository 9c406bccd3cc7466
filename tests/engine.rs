use grid_search::arena::Arena;
use grid_search::grid::{manhattan_distance, neighbor, same_pos, Direction, MAX_COORD};
use grid_search::search::Strategy;
use grid_search::walls::Walls;

fn path_positions(arena: &Arena, from: usize) -> Vec<(i64, i64)> {
    let mut out = vec![arena.nodes[from].pos];
    let mut cur = from;
    while let Some(p) = arena.nodes[cur].parent {
        out.push(arena.nodes[p].pos);
        cur = p;
    }
    out
}

fn assert_unique_positions(arena: &Arena) {
    for i in 0..arena.nodes.len() {
        for j in (i + 1)..arena.nodes.len() {
            assert_ne!(arena.nodes[i].pos, arena.nodes[j].pos);
        }
    }
}

fn assert_tree(arena: &Arena) {
    assert!(arena.nodes[0].parent.is_none());
    for k in 0..arena.nodes.len() {
        assert_eq!(arena.nodes[k].index, k);
        let mut cur = k;
        let mut steps = 0;
        while let Some(p) = arena.nodes[cur].parent {
            cur = p;
            steps += 1;
            assert!(steps <= arena.nodes.len());
        }
        assert_eq!(cur, 0);
    }
}

/// A closed box of walls around the square of cells with corners (0,0) and (size, size).
fn boxed(size: i64) -> Walls {
    let mut w = Walls::new();
    let mut c = -20;
    while c <= size + 20 {
        w.try_add((c, -20));
        w.try_add((c, size + 20));
        w.try_add((-20, c));
        w.try_add((size + 20, c));
        c += 20;
    }
    w
}

#[test]
fn heuristic_is_manhattan_distance() {
    assert_eq!(Arena::heuristic((0, 0), (20, -40)), 60);
    assert_eq!(Arena::heuristic((-100, 40), (-100, 40)), 0);
    assert_eq!(manhattan_distance((-20, -20), (40, 20)), 100);
    assert_eq!(Arena::heuristic((-MAX_COORD, MAX_COORD), (MAX_COORD, -MAX_COORD)), 4 * MAX_COORD as u64);
}

#[test]
fn heuristic_never_exceeds_walk_length() {
    // a walk of 5 steps from (0,0) to (40,20) with a detour
    let walk = [(0, 0), (0, 20), (20, 20), (20, 0), (40, 0), (40, 20)];
    let steps = (walk.len() - 1) as u64;
    assert!(Arena::heuristic(walk[0], walk[walk.len() - 1]) <= 20 * steps);
    assert_eq!(Arena::heuristic(walk[0], walk[walk.len() - 1]), 60);
}

#[test]
fn distance_from_start_measures_from_start() {
    let arena = Arena::new((40, 40));
    assert_eq!(arena.distance_from_start((0, 0)), 80);
    assert_eq!(arena.distance_from_start((40, 100)), 60);
}

#[test]
fn directions_in_fixed_order() {
    assert_eq!(Direction::all(), vec![Direction::Up, Direction::Down, Direction::Left, Direction::Right]);
    assert_eq!(Direction::delta_dirs(), vec![(20, 0), (0, -20), (-20, 0), (0, 20)]);
    assert_eq!(neighbor((0, 0), 0), Some((20, 0)));
    assert_eq!(neighbor((0, 0), 1), Some((0, -20)));
    assert_eq!(neighbor((0, 0), 2), Some((-20, 0)));
    assert_eq!(neighbor((0, 0), 3), Some((0, 20)));
    assert_eq!(neighbor((MAX_COORD, 0), 0), None);
    assert!(same_pos(&(3, 4), &(3, 4)));
    assert!(!same_pos(&(3, 4), &(4, 3)));
}

#[test]
fn walls_add_and_remove_are_idempotent() {
    let mut w = Walls::new();
    assert_eq!(w.len(), 0);
    w.try_add((20, 0));
    w.try_add((20, 0));
    assert_eq!(w.len(), 1);
    assert!(w.contains(&(20, 0)));
    w.try_add((40, 0));
    assert_eq!(w.len(), 2);
    w.try_remove((60, 0));
    assert_eq!(w.len(), 2);
    w.try_remove((20, 0));
    assert_eq!(w.len(), 1);
    assert!(!w.contains(&(20, 0)));
    assert!(w.contains(&(40, 0)));
    w.try_remove((20, 0));
    assert_eq!(w.len(), 1);
}

#[test]
fn new_arena_has_single_root() {
    let arena = Arena::new((20, 40));
    assert_eq!(arena.nodes.len(), 1);
    assert_eq!(arena.nodes[0].pos, (20, 40));
    assert_eq!(arena.nodes[0].parent, None);
    assert_eq!(arena.nodes[0].index, 0);
    assert_eq!(arena.nodes[0].cost, 0);
    assert_eq!(arena.open, vec![0]);
    assert_eq!(arena.found_objective, None);
    assert_eq!(arena.start_pos, (20, 40));
}

#[test]
fn new_node_and_new_child() {
    let mut arena = Arena { nodes: Vec::new(), start_pos: (0, 0), greatest_weight: 0, found_objective: None, open: vec![0] };
    assert_eq!(arena.new_node((0, 0)), 0);
    assert_eq!(arena.nodes.len(), 1);
    let c = arena.new_child(0, (20, 0), 20, 55);
    assert_eq!(c, 1);
    assert_eq!(arena.nodes[1].parent, Some(0));
    assert_eq!(arena.nodes[1].cost, 20);
    assert_eq!(arena.nodes[1].priority, 55);
    assert_eq!(arena.greatest_weight, 20);
    assert_eq!(arena.open, vec![0]);
}

#[test]
fn node_exists_finds_by_position() {
    let mut arena = Arena::new((0, 0));
    arena.new_child(0, (20, 0), 1, 0);
    assert_eq!(arena.node_exists((20, 0)).map(|n| n.index), Some(1));
    assert_eq!(arena.node_exists((0, 0)).map(|n| n.index), Some(0));
    assert!(arena.node_exists((40, 0)).is_none());
}

#[test]
fn layer_step_expands_whole_layer() {
    let mut arena = Arena::new((0, 0));
    let walls = Walls::new();
    let done = arena.breadth_first_search(&walls, &(1000, 1000));
    assert!(!done);
    assert_eq!(arena.nodes.len(), 5);
    assert_eq!(arena.open, vec![1, 2, 3, 4]);
    let positions: Vec<(i64, i64)> = arena.nodes.iter().skip(1).map(|n| n.pos).collect();
    assert_eq!(positions, vec![(20, 0), (0, -20), (-20, 0), (0, 20)]);
    for n in arena.nodes.iter().skip(1) {
        assert_eq!(n.parent, Some(0));
        assert_eq!(n.cost, 1);
    }
    let done = arena.breadth_first_search(&walls, &(1000, 1000));
    assert!(!done);
    // the second layer: the 8 cells at distance two
    assert_eq!(arena.nodes.len(), 13);
    assert_eq!(arena.open, (5..13).collect::<Vec<usize>>());
    for n in arena.nodes.iter().skip(5) {
        assert_eq!(n.cost, 2);
        assert_eq!(Arena::heuristic(n.pos, (0, 0)), 40);
    }
    assert_unique_positions(&arena);
    assert_tree(&arena);
}

#[test]
fn layer_step_stops_at_target() {
    let mut arena = Arena::new((0, 0));
    let walls = Walls::new();
    let done = arena.breadth_first_search(&walls, &(0, -20));
    assert!(done);
    assert_eq!(arena.nodes.len(), 3);
    assert_eq!(arena.found_objective, Some(2));
    assert_eq!(arena.nodes[2].pos, (0, -20));
    assert_eq!(arena.open, vec![1, 2]);
}

#[test]
fn layer_step_skips_walls_and_reports_empty_layer() {
    let mut arena = Arena::new((0, 0));
    let mut walls = Walls::new();
    for p in [(20, 0), (0, -20), (-20, 0), (0, 20)] {
        walls.try_add(p);
    }
    let done = arena.breadth_first_search(&walls, &(100, 100));
    assert!(done);
    assert_eq!(arena.nodes.len(), 1);
    assert!(arena.open.is_empty());
    assert_eq!(arena.found_objective, None);
}

#[test]
fn greedy_step_orders_by_distance_to_target() {
    let mut arena = Arena::new((0, 0));
    let walls = Walls::new();
    let target = (100, 0);
    assert!(!arena.best_first_search(&walls, &target));
    assert_eq!(arena.open, vec![1, 2, 3, 4]);
    assert_eq!(arena.nodes[1].priority, 80);
    assert_eq!(arena.nodes[2].priority, 120);
    assert_eq!(arena.nodes[3].priority, 120);
    assert_eq!(arena.nodes[4].priority, 120);
    assert_eq!(arena.nodes[1].cost, 20);
    // next it expands (20,0), the closest to the target
    assert!(!arena.best_first_search(&walls, &target));
    assert_eq!(arena.open, vec![2, 3, 4, 5, 6, 7]);
    assert_eq!(arena.nodes[5].pos, (40, 0));
    assert_eq!(arena.nodes[5].parent, Some(1));
    assert_eq!(arena.nodes[5].priority, 60);
    assert_eq!(arena.run_to_completion(Strategy::Greedy, &walls, &target, 100), true);
    let f = arena.found_objective.unwrap();
    assert_eq!(arena.nodes[f].pos, target);
    assert_eq!(arena.path_length(f), 5);
}

#[test]
fn greedy_on_empty_frontier_reports_done() {
    let mut arena = Arena::new((0, 0));
    arena.open.clear();
    let walls = Walls::new();
    assert!(arena.best_first_search(&walls, &(20, 0)));
    assert_eq!(arena.nodes.len(), 1);
    assert!(arena.a_search_star(&walls, &(20, 0)));
    assert_eq!(arena.nodes.len(), 1);
}

#[test]
fn cost_aware_step_prices_children() {
    let mut arena = Arena::new((0, 0));
    let walls = Walls::new();
    let target = (0, 60);
    assert!(!arena.a_search_star(&walls, &target));
    assert_eq!(arena.open, vec![1, 2, 3, 4]);
    assert_eq!(arena.nodes[1].cost, 20);
    assert_eq!(arena.nodes[1].priority, 20 + 80);
    assert_eq!(arena.nodes[4].pos, (0, 20));
    assert_eq!(arena.nodes[4].priority, 20 + 40);
    // ties keep the first minimum in frontier order
    assert_eq!(arena.select_min(), 3);
}

#[test]
fn first_minimum_wins_ties() {
    let mut arena = Arena::new((0, 0));
    arena.new_child(0, (20, 0), 20, 7);
    arena.new_child(0, (40, 0), 40, 5);
    arena.new_child(0, (60, 0), 60, 5);
    arena.open = vec![0, 1, 2, 3];
    arena.nodes[0].priority = 9;
    assert_eq!(arena.select_min(), 2);
}

#[test]
fn cost_aware_lowers_cost_of_known_node() {
    // node (20,20) first reached by a long way round, then by a shorter one
    let mut arena = Arena::new((0, 0));
    let a = arena.new_child(0, (0, 20), 20, 0);
    let b = arena.new_child(a, (0, 40), 40, 0);
    let c = arena.new_child(b, (20, 40), 60, 0);
    let d = arena.new_child(c, (20, 20), 80, 0);
    arena.open = vec![a];
    let walls = Walls::new();
    assert!(!arena.a_search_star(&walls, &(1000, 1000)));
    assert_eq!(arena.nodes[d].cost, 40);
    assert_eq!(arena.nodes[d].parent, Some(a));
    assert_eq!(arena.nodes[d].pos, (20, 20));
    assert!(arena.open.contains(&d));
    assert_eq!(arena.nodes.len(), 5 + 1);
    assert_eq!(arena.nodes[5].pos, (-20, 20));
    assert_unique_positions(&arena);
    assert_tree(&arena);
}

#[test]
fn cached_search_finds_known_target() {
    let mut arena = Arena::new((0, 0));
    let walls = Walls::new();
    arena.breadth_first_search(&walls, &(1000, 1000));
    arena.cached_search(&(-20, 0));
    assert_eq!(arena.found_objective, Some(3));
    arena.cached_search(&(200, 0));
    assert_eq!(arena.found_objective, None);
}

#[test]
fn smart_resets() {
    let mut arena = Arena::new((0, 0));
    let walls = Walls::new();
    arena.breadth_first_search(&walls, &(1000, 1000));
    assert!(!arena.smart_reset((200, 200)));
    assert_eq!(arena.nodes.len(), 5);
    assert!(!arena.i_smart_reset((20, 0)));
    assert_eq!(arena.nodes.len(), 5);
    assert!(arena.i_smart_reset((200, 200)));
    assert_eq!(arena.nodes.len(), 1);
    arena.breadth_first_search(&walls, &(1000, 1000));
    assert!(arena.smart_reset((20, 0)));
    assert_eq!(arena.nodes.len(), 1);
    assert_eq!(arena.open, vec![0]);
}

#[test]
fn reset_twice_equals_reset_once() {
    let mut arena = Arena::new((40, 20));
    let walls = Walls::new();
    arena.run_to_completion(Strategy::CostAware, &walls, &(200, 20), 1000);
    arena.reset();
    let once: Vec<((i64, i64), Option<usize>, u64)> = arena.nodes.iter().map(|n| (n.pos, n.parent, n.cost)).collect();
    let open_once = arena.open.clone();
    arena.reset();
    let twice: Vec<((i64, i64), Option<usize>, u64)> = arena.nodes.iter().map(|n| (n.pos, n.parent, n.cost)).collect();
    assert_eq!(once, twice);
    assert_eq!(once, vec![((40, 20), None, 0)]);
    assert_eq!(open_once, arena.open);
    assert_eq!(arena.found_objective, None);
    assert_eq!(arena.greatest_weight, 0);
}

#[test]
fn path_length_counts_hops() {
    let mut arena = Arena::new((0, 0));
    let walls = Walls::new();
    arena.breadth_first_search(&walls, &(1000, 1000));
    arena.breadth_first_search(&walls, &(1000, 1000));
    assert_eq!(arena.path_length(0), 0);
    assert_eq!(arena.path_length(1), 1);
    assert_eq!(arena.path_length(7), 2);
    let mut acc: usize = 3;
    arena.nodes[7].total_steps(&mut acc, &arena);
    assert_eq!(acc, 5);
}

#[test]
fn uniqueness_and_tree_after_mixed_operations() {
    let mut arena = Arena::new((0, 0));
    let mut walls = boxed(100);
    walls.try_add((40, 40));
    arena.run_to_completion(Strategy::Layer, &walls, &(100, 100), 100);
    assert_unique_positions(&arena);
    assert_tree(&arena);
    walls.try_add((60, 60));
    arena.reset();
    arena.run_to_completion(Strategy::CostAware, &walls, &(100, 100), 1000);
    assert_unique_positions(&arena);
    assert_tree(&arena);
    arena.reset();
    arena.run_to_completion(Strategy::Greedy, &walls, &(100, 100), 1000);
    assert_unique_positions(&arena);
    assert_tree(&arena);
    for n in arena.nodes.iter().skip(1) {
        assert!(!walls.contains(&n.pos));
    }
}

#[test]
fn cost_aware_costs_follow_parents() {
    let mut arena = Arena::new((0, 0));
    let mut walls = boxed(120);
    walls.try_add((40, 0));
    walls.try_add((40, 20));
    walls.try_add((40, 40));
    assert!(arena.run_to_completion(Strategy::CostAware, &walls, &(80, 0), 1000));
    for n in arena.nodes.iter().skip(1) {
        let p = n.parent.unwrap();
        assert!(arena.nodes[p].cost < n.cost);
    }
}

#[test]
fn run_to_completion_respects_step_budget() {
    let mut arena = Arena::new((0, 0));
    let walls = Walls::new();
    assert!(!arena.run_to_completion(Strategy::Layer, &walls, &(2000, 0), 3));
    assert_eq!(arena.found_objective, None);
    assert_eq!(arena.nodes.len(), 1 + 4 + 8 + 12);
    assert!(arena.advance(Strategy::Layer, &walls, &(80, 0)));
    assert_eq!(arena.nodes[arena.found_objective.unwrap()].pos, (80, 0));
}

#[test]
fn target_one_cell_away() {
    let mut arena = Arena::new((0, 0));
    let walls = Walls::new();
    assert!(arena.run_to_completion(Strategy::CostAware, &walls, &(20, 0), 100));
    let f = arena.found_objective.unwrap();
    assert_eq!(arena.nodes[f].pos, (20, 0));
    let path = path_positions(&arena, f);
    assert_eq!(path.len(), 2);
    assert_eq!(path, vec![(20, 0), (0, 0)]);
    assert_eq!(arena.path_length(f), 1);
}

#[test]
fn walled_in_target_exhausts_frontier() {
    let mut arena = Arena::new((0, 0));
    let mut walls = boxed(100);
    let target = (80, 80);
    for p in [(60, 80), (100, 80), (80, 60), (80, 100)] {
        walls.try_add(p);
    }
    for strategy in [Strategy::CostAware, Strategy::Layer, Strategy::Greedy] {
        arena.reset();
        assert!(arena.run_to_completion(strategy, &walls, &target, 10_000));
        assert_eq!(arena.found_objective, None);
        assert!(arena.open.is_empty());
        assert!(arena.node_exists(target).is_none());
    }
}

#[test]
fn detour_around_l_shaped_obstacle() {
    let mut arena = Arena::new((0, 0));
    let mut walls = Walls::new();
    // an L: a wall segment right of the start and one below the target
    walls.try_add((20, 0));
    walls.try_add((20, 20));
    walls.try_add((40, 20));
    let target = (40, 40);
    assert!(arena.run_to_completion(Strategy::CostAware, &walls, &target, 1000));
    let f = arena.found_objective.unwrap();
    let path = path_positions(&arena, f);
    for p in &path {
        assert!(!walls.contains(p));
    }
    let hops = arena.path_length(f) as u64;
    assert_eq!(hops * 20, Arena::heuristic((0, 0), target));
    assert_eq!(hops, 4);
}

#[test]
fn replanning_avoids_new_obstacle() {
    let mut arena = Arena::new((0, 0));
    let mut walls = boxed(100);
    let target = (100, 0);
    assert!(arena.run_to_completion(Strategy::CostAware, &walls, &target, 10_000));
    let first = path_positions(&arena, arena.found_objective.unwrap());
    let blocked = first[first.len() / 2];
    assert_ne!(blocked, (0, 0));
    assert_ne!(blocked, target);
    walls.try_add(blocked);
    arena.reset();
    assert!(arena.run_to_completion(Strategy::CostAware, &walls, &target, 10_000));
    let f = arena.found_objective.unwrap();
    assert_eq!(arena.nodes[f].pos, target);
    let second = path_positions(&arena, f);
    assert_ne!(first, second);
    assert!(!second.contains(&blocked));
    for w in second.windows(2) {
        assert_eq!(Arena::heuristic(w[0], w[1]), 20);
    }
    for p in &second[..second.len() - 1] {
        assert!(!walls.contains(p));
    }
}

#[test]
fn advance_runs_the_chosen_step() {
    let walls = boxed(100);
    let target = (100, 60);
    for strategy in [Strategy::Layer, Strategy::Greedy, Strategy::CostAware] {
        let mut a = Arena::new((0, 0));
        let mut b = Arena::new((0, 0));
        for _ in 0..6 {
            let ra = a.advance(strategy, &walls, &target);
            let rb = match strategy {
                Strategy::Layer => b.breadth_first_search(&walls, &target),
                Strategy::Greedy => b.best_first_search(&walls, &target),
                Strategy::CostAware => b.a_search_star(&walls, &target),
            };
            assert_eq!(ra, rb);
            assert_eq!(a.open, b.open);
            assert_eq!(a.found_objective, b.found_objective);
            let pa: Vec<((i64, i64), Option<usize>, u64, u64)> = a.nodes.iter().map(|n| (n.pos, n.parent, n.cost, n.priority)).collect();
            let pb: Vec<((i64, i64), Option<usize>, u64, u64)> = b.nodes.iter().map(|n| (n.pos, n.parent, n.cost, n.priority)).collect();
            assert_eq!(pa, pb);
        }
    }
}

#[test]
fn layer_costs_are_hop_counts() {
    let mut arena = Arena::new((0, 0));
    let walls = boxed(80);
    arena.run_to_completion(Strategy::Layer, &walls, &(80, 80), 100);
    for k in 0..arena.nodes.len() {
        assert_eq!(arena.nodes[k].cost, arena.path_length(k) as u64);
    }
    let f = arena.found_objective.unwrap();
    assert_eq!(arena.path_length(f), 8);
}
