use vstd::prelude::*;

verus! {

/// A grid position `(x, y)`, in the same units as the cell size.
pub type Pos = (i64, i64);

/// Side length of one grid cell: the distance between two adjacent positions.
pub const SQUARE_SCALE: i64 = 20;

/// Largest coordinate, in absolute value, of a position on the grid.
pub const MAX_COORD: i64 = 1099511627776;

pub open spec fn abs(v: int) -> int {
    if v < 0 {
        -v
    } else {
        v
    }
}

/// Manhattan distance between two positions.
pub open spec fn manhattan(p: Pos, q: Pos) -> int {
    abs(p.0 - q.0) + abs(p.1 - q.1)
}

/// A position within the coordinate range that the engine handles.
pub open spec fn in_grid(p: Pos) -> bool {
    -MAX_COORD <= p.0 <= MAX_COORD && -MAX_COORD <= p.1 <= MAX_COORD
}

/// Two positions one cell apart along exactly one axis.
pub open spec fn adjacent(p: Pos, q: Pos) -> bool {
    (abs(p.0 - q.0) == SQUARE_SCALE && p.1 == q.1) || (p.0 == q.0 && abs(p.1 - q.1)
        == SQUARE_SCALE)
}

/// A sequence of positions in which each one is adjacent to the next.
pub open spec fn is_walk(path: Seq<Pos>) -> bool {
    forall|i: int| 0 <= i < path.len() - 1 ==> adjacent(#[trigger] path[i], path[i + 1])
}

/// The four moves, in the fixed order in which every strategy expands a node.
pub open spec fn deltas() -> Seq<(i64, i64)> {
    seq![(20i64, 0i64), (0i64, -20i64), (-20i64, 0i64), (0i64, 20i64)]
}

/// The neighbour of `p` in direction `k` (an index into `deltas()`), if it lies on the grid.
pub open spec fn neighbor_of(p: Pos, k: int) -> Option<Pos> {
    let x = p.0 + deltas()[k].0;
    let y = p.1 + deltas()[k].1;
    if -MAX_COORD <= x <= MAX_COORD && -MAX_COORD <= y <= MAX_COORD {
        Some((x as i64, y as i64))
    } else {
        None
    }
}

/// Index in `deltas()` of the move from `p` to its neighbour `q`.
pub open spec fn dir_of(p: Pos, q: Pos) -> int {
    if q.0 > p.0 {
        0
    } else if q.1 < p.1 {
        1
    } else if q.0 < p.0 {
        2
    } else {
        3
    }
}

pub proof fn lemma_dir_of_neighbor(p: Pos, d: int, q: Pos)
    requires
        0 <= d < 4,
        neighbor_of(p, d) == Some(q),
    ensures
        dir_of(p, q) == d,
        q != p,
{
}

#[derive(Clone, Copy, Debug, PartialEq, Eq, Structural)]
pub enum Direction {
    Up,
    Down,
    Left,
    Right,
}

impl Direction {
    pub fn all() -> (r: Vec<Direction>)
        ensures
            r@ == seq![Direction::Up, Direction::Down, Direction::Left, Direction::Right],
    {
        let r = vec![Direction::Up, Direction::Down, Direction::Left, Direction::Right];
        assert(r@ =~= seq![Direction::Up, Direction::Down, Direction::Left, Direction::Right]);
        r
    }

    /// The four moves as coordinate offsets, in expansion order.
    pub fn delta_dirs() -> (r: Vec<(i64, i64)>)
        ensures
            r@ == deltas(),
    {
        let r = vec![(20i64, 0i64), (0i64, -20i64), (-20i64, 0i64), (0i64, 20i64)];
        assert(r@ =~= deltas());
        r
    }
}

/// The neighbour of `p` reached by move `k` of `Direction::delta_dirs()`, or `None` where it
/// leaves the grid.
pub fn neighbor(p: Pos, k: usize) -> (r: Option<Pos>)
    requires
        in_grid(p),
        k < 4,
    ensures
        r == neighbor_of(p, k as int),
        r matches Some(q) ==> in_grid(q) && adjacent(p, q),
{
    let d = if k == 0 {
        (SQUARE_SCALE, 0i64)
    } else if k == 1 {
        (0i64, -SQUARE_SCALE)
    } else if k == 2 {
        (-SQUARE_SCALE, 0i64)
    } else {
        (0i64, SQUARE_SCALE)
    };
    assert(d == deltas()[k as int]);
    let x = p.0 + d.0;
    let y = p.1 + d.1;
    if -MAX_COORD <= x && x <= MAX_COORD && -MAX_COORD <= y && y <= MAX_COORD {
        Some((x, y))
    } else {
        None
    }
}

/// Whether two positions are the same.
pub fn same_pos(a: &Pos, b: &Pos) -> (r: bool)
    ensures
        r == (*a == *b),
{
    a.0 == b.0 && a.1 == b.1
}

/// Manhattan distance between two grid positions.
pub fn manhattan_distance(p1: Pos, p2: Pos) -> (r: u64)
    requires
        in_grid(p1),
        in_grid(p2),
    ensures
        r == manhattan(p1, p2),
        r <= 4 * MAX_COORD,
{
    let dx: i64 = if p1.0 < p2.0 {
        p2.0 - p1.0
    } else {
        p1.0 - p2.0
    };
    let dy: i64 = if p1.1 < p2.1 {
        p2.1 - p1.1
    } else {
        p1.1 - p2.1
    };
    dx as u64 + dy as u64
}

/// The Manhattan distance never exceeds the length of a walk between two positions:
/// on an open grid it is an admissible estimate of the remaining distance.
pub proof fn lemma_manhattan_admissible(path: Seq<Pos>)
    requires
        path.len() >= 1,
        is_walk(path),
    ensures
        manhattan(path[0], path.last()) <= SQUARE_SCALE * (path.len() - 1),
    decreases path.len(),
{
    if path.len() > 1 {
        let init = path.drop_last();
        assert forall|i: int| 0 <= i < init.len() - 1 implies adjacent(
            #[trigger] init[i],
            init[i + 1],
        ) by {
            assert(adjacent(path[i], path[i + 1]));
        }
        lemma_manhattan_admissible(init);
        assert(adjacent(path[path.len() - 2], path[path.len() - 1]));
    }
}

} // verus!
