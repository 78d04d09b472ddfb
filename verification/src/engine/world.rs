//! Shortest paths over the cells of a world.
//!
//! A path leads from cell to neighbouring cell through cells that belong to the
//! world and on which nothing stands. Each step costs one.

use crate::engine::cell::{abs, lemma_distance_symmetry, lemma_distance_triangle,
    lemma_length_is_max, lemma_neighbor_distance, lemma_step_closer, CellCoord, Cube, Hex};
use crate::engine::coords::{CoordMap, CoordSet};
use vstd::prelude::*;

verus! {

/// The search gives up once more than this many cells have been given a cost.
pub const SEARCH_LIMIT: usize = 1000;

/// Whether the cell at `coord` can be entered: it belongs to the world and
/// nothing stands on it.
pub open spec fn passable(coord: CellCoord, world: Set<CellCoord>, collisions: Set<CellCoord>) -> bool {
    world.contains(coord) && !collisions.contains(coord)
}

/// Whether `path` leads from `from` to `to`, from cell to neighbouring cell,
/// entering passable cells only. The first cell is not entered.
pub open spec fn is_path(
    path: Seq<Hex>,
    from: Hex,
    to: Hex,
    world: Set<CellCoord>,
    collisions: Set<CellCoord>,
) -> bool {
    &&& path.len() >= 1
    &&& path[0] == from
    &&& path.last() == to
    &&& forall|i: int| 0 <= i < path.len() ==> (#[trigger] path[i]).wf()
    &&& forall|i: int|
        0 < i < path.len() ==> path[i - 1]@.adjacent((#[trigger] path[i])@) && passable(
            path[i].spec_coord(),
            world,
            collisions,
        )
}

/// Whether some path leads from `from` to `to`.
pub open spec fn reachable(
    from: Hex,
    to: Hex,
    world: Set<CellCoord>,
    collisions: Set<CellCoord>,
) -> bool {
    exists|path: Seq<Hex>| is_path(path, from, to, world, collisions)
}

/// Whether more cells than the search will cost can be reached from `from`.
pub open spec fn crowded(from: Hex, world: Set<CellCoord>, collisions: Set<CellCoord>) -> bool {
    exists|cells: Set<CellCoord>|
        {
            &&& cells.finite()
            &&& cells.len() > SEARCH_LIMIT
            &&& forall|c: CellCoord|
                cells.contains(c) ==> #[trigger] reachable(from, c.cell(), world, collisions)
        }
}

/// Whether every cell on a shortest way from `from` to `to`, but `from`
/// itself, can be entered: every cell whose steps from `from` and to `to` add
/// up to the steps between the two.
pub open spec fn clear_between(
    from: Hex,
    to: Hex,
    world: Set<CellCoord>,
    collisions: Set<CellCoord>,
) -> bool {
    forall|c: Hex|
        c.wf() && c != from && from@.distance(c@) + c@.distance(to@) == from@.distance(to@)
            ==> #[trigger] passable(c.spec_coord(), world, collisions)
}

/// Whether the cell at `coord` lies within `radius` steps of the origin.
pub open spec fn in_hexagon(coord: CellCoord, radius: int) -> bool {
    &&& coord@.valid()
    &&& -radius <= coord.x <= radius
    &&& -radius <= coord.y <= radius
    &&& -radius <= coord.z <= radius
}

/// The world of all cells within `radius` steps of the origin: a hexagon.
/// There is no such cell where `radius` is negative.
pub fn generate_hexgon(radius: i32) -> (world: CoordSet)
    ensures
        world.wf(),
        forall|c: CellCoord| #[trigger] world@.contains(c) <==> in_hexagon(c, radius as int),
{
    let mut world = CoordSet::new();
    let bound: i64 = radius as i64;
    let mut q: i64 = -bound;
    while q <= bound
        invariant
            bound == radius,
            -bound <= q,
            q <= bound + 1 || bound < 0,
            world.wf(),
            forall|c: CellCoord| #[trigger]
                world@.contains(c) <==> in_hexagon(c, radius as int) && c.x < q,
        decreases bound + 1 - q,
    {
        let r1: i64 = if -bound > -q - bound {
            -bound
        } else {
            -q - bound
        };
        let r2: i64 = if bound < -q + bound {
            bound
        } else {
            -q + bound
        };
        let mut r: i64 = r1;
        proof {
            assert forall|c: CellCoord| #[trigger]
                world@.contains(c) <==> in_hexagon(c, radius as int) && (c.x < q || (c.x == q
                    && c.y < r)) by {
                if in_hexagon(c, radius as int) && c.x == q {
                    assert(c.y >= r1);
                }
            }
        }
        while r <= r2
            invariant
                bound == radius,
                0 <= bound,
                -bound <= q <= bound,
                r1 >= -bound,
                r1 >= -q - bound,
                r1 == -bound || r1 == -q - bound,
                r2 <= bound,
                r2 <= -q + bound,
                r2 == bound || r2 == -q + bound,
                r1 <= r <= r2 + 1,
                world.wf(),
                forall|c: CellCoord| #[trigger]
                    world@.contains(c) <==> in_hexagon(c, radius as int) && (c.x < q || (c.x == q
                        && c.y < r)),
            decreases r2 + 1 - r,
        {
            let ghost before = world@;
            let cell = CellCoord::new(q as i32, r as i32, (-q - r) as i32);
            world.insert(cell);
            proof {
                assert forall|c: CellCoord| #[trigger]
                    world@.contains(c) <==> in_hexagon(c, radius as int) && (c.x < q || (c.x == q
                        && c.y < r + 1)) by {
                    assert(world@.contains(c) <==> before.contains(c) || c == cell);
                }
            }
            r += 1;
        }
        proof {
            assert forall|c: CellCoord| #[trigger]
                world@.contains(c) <==> in_hexagon(c, radius as int) && c.x < q + 1 by {
                if in_hexagon(c, radius as int) && c.x == q {
                    assert(c.y < r);
                }
            }
        }
        q += 1;
    }
    world
}

/// The estimate of the cost that is left from `a` to `b`: half the sum of the
/// absolute differences of the coordinates, which is the number of steps
/// between the two where nothing is in the way. It never overestimates.
pub open spec fn spec_heuristic(a: Cube, b: Cube) -> int {
    (abs(a.q - b.q) + abs(a.r - b.r) + abs(a.s - b.s)) / 2
}

/// A cell reaches itself.
pub proof fn lemma_reachable_self(from: Hex, world: Set<CellCoord>, collisions: Set<CellCoord>)
    requires
        from.wf(),
    ensures
        reachable(from, from, world, collisions),
{
    assert(is_path(seq![from], from, from, world, collisions));
}

/// A path goes on by one step into a passable neighbour.
pub proof fn lemma_reachable_step(
    from: Hex,
    mid: Hex,
    to: Hex,
    world: Set<CellCoord>,
    collisions: Set<CellCoord>,
)
    requires
        reachable(from, mid, world, collisions),
        to.wf(),
        mid@.adjacent(to@),
        passable(to.spec_coord(), world, collisions),
    ensures
        reachable(from, to, world, collisions),
{
    let path = choose|path: Seq<Hex>| is_path(path, from, mid, world, collisions);
    let longer = path.push(to);
    assert forall|i: int| 0 <= i < longer.len() implies (#[trigger] longer[i]).wf() by {
        if i < path.len() {
            assert(longer[i] == path[i]);
        }
    }
    assert forall|i: int| 0 < i < longer.len() implies longer[i - 1]@.adjacent(
        (#[trigger] longer[i])@,
    ) && passable(longer[i].spec_coord(), world, collisions) by {
        if i < path.len() {
            assert(longer[i] == path[i]);
            assert(longer[i - 1] == path[i - 1]);
        } else {
            assert(longer[i - 1] == path.last());
        }
    }
    assert(is_path(longer, from, to, world, collisions));
}

/// A path has at least one cell for each step between its ends, and one more.
pub proof fn lemma_path_length(
    path: Seq<Hex>,
    from: Hex,
    to: Hex,
    world: Set<CellCoord>,
    collisions: Set<CellCoord>,
)
    requires
        is_path(path, from, to, world, collisions),
    ensures
        path.len() >= from@.distance(to@) + 1,
    decreases path.len(),
{
    if path.len() == 1 {
        lemma_distance_symmetry(from@, from@);
    } else {
        let shorter = path.drop_last();
        let mid = shorter.last();
        assert(mid == path[path.len() - 2]);
        assert forall|i: int| 0 <= i < shorter.len() implies (#[trigger] shorter[i]).wf() by {
            assert(shorter[i] == path[i]);
        }
        assert forall|i: int| 0 < i < shorter.len() implies shorter[i - 1]@.adjacent(
            (#[trigger] shorter[i])@,
        ) && passable(shorter[i].spec_coord(), world, collisions) by {
            assert(shorter[i] == path[i]);
            assert(shorter[i - 1] == path[i - 1]);
        }
        assert(is_path(shorter, from, mid, world, collisions));
        lemma_path_length(shorter, from, mid, world, collisions);
        assert(path[path.len() - 1].wf());
        assert(mid@.adjacent(path[path.len() - 1]@));
        let d = choose|d: int| 0 <= d < 6 && to@ == #[trigger] mid@.neighbor(d);
        lemma_neighbor_distance(mid@, d);
        lemma_distance_triangle(from@, mid@, to@);
    }
}

/// The estimate is the number of steps between the two cells, and no way
/// between them has fewer.
pub proof fn lemma_heuristic(a: Cube, b: Cube)
    requires
        a.valid(),
        b.valid(),
    ensures
        spec_heuristic(a, b) == a.distance(b),
        spec_heuristic(a, b) == spec_heuristic(b, a),
        spec_heuristic(a, b) >= 0,
{
    lemma_length_is_max(a.minus(b));
    lemma_distance_symmetry(a, b);
}

/// The coordinates at the point `cube`, where they can be held.
pub open spec fn coord_at(cube: Cube) -> CellCoord {
    CellCoord { x: cube.q as i32, y: cube.r as i32, z: cube.s as i32 }
}

/// The bound that the number of costed cells never passes: the limit, and the
/// six neighbours of the cell that is expanded when the limit is reached.
spec fn costed_bound() -> int {
    SEARCH_LIMIT as int + 7
}

/// The sum of the costs of the cells in `order`.
spec fn cost_sum(order: Seq<CellCoord>, cost: Map<CellCoord, i32>) -> int
    decreases order.len(),
{
    if order.len() == 0 {
        0
    } else {
        cost_sum(order.drop_last(), cost) + cost[order.last()]
    }
}

proof fn lemma_cost_sum_other(order: Seq<CellCoord>, cost: Map<CellCoord, i32>, c: CellCoord, g: i32)
    requires
        !order.contains(c),
    ensures
        cost_sum(order, cost.insert(c, g)) == cost_sum(order, cost),
    decreases order.len(),
{
    if order.len() > 0 {
        assert(order.last() == order[order.len() - 1]);
        assert forall|x: CellCoord| order.drop_last().contains(x) implies order.contains(x) by {
            let i = choose|i: int| 0 <= i < order.drop_last().len() && order.drop_last()[i] == x;
            assert(order[i] == x);
        }
        lemma_cost_sum_other(order.drop_last(), cost, c, g);
    }
}

proof fn lemma_cost_sum_set(order: Seq<CellCoord>, cost: Map<CellCoord, i32>, c: CellCoord, g: i32)
    requires
        order.no_duplicates(),
        order.contains(c),
    ensures
        cost_sum(order, cost.insert(c, g)) == cost_sum(order, cost) - cost[c] + g,
    decreases order.len(),
{
    let rest = order.drop_last();
    assert(order.last() == order[order.len() - 1]);
    if order.last() == c {
        assert(!rest.contains(c)) by {
            if rest.contains(c) {
                let i = choose|i: int| 0 <= i < rest.len() && rest[i] == c;
                assert(order[i] == c);
            }
        }
        lemma_cost_sum_other(rest, cost, c, g);
    } else {
        let i = choose|i: int| 0 <= i < order.len() && order[i] == c;
        assert(rest[i] == c);
        lemma_cost_sum_set(rest, cost, c, g);
    }
}

proof fn lemma_cost_sum_nonneg(order: Seq<CellCoord>, cost: Map<CellCoord, i32>)
    requires
        forall|c: CellCoord| #[trigger] order.contains(c) ==> cost[c] >= 0,
    ensures
        cost_sum(order, cost) >= 0,
    decreases order.len(),
{
    if order.len() > 0 {
        assert(order.last() == order[order.len() - 1]);
        assert forall|x: CellCoord| #[trigger] order.drop_last().contains(x) implies cost[x]
            >= 0 by {
            let i = choose|i: int| 0 <= i < order.drop_last().len() && order.drop_last()[i] == x;
            assert(order[i] == x);
            assert(order.contains(x));
        }
        assert(order.contains(order.last()));
        lemma_cost_sum_nonneg(order.drop_last(), cost);
    }
}

/// The estimate of the cost that is left from `b` to `a`.
fn heuristic(a: &CellCoord, b: &CellCoord) -> (h: i64)
    ensures
        h == spec_heuristic(b@, a@),
        h == spec_heuristic(a@, b@),
{
    let dx: i64 = a.x as i64 - b.x as i64;
    let dy: i64 = a.y as i64 - b.y as i64;
    let dz: i64 = a.z as i64 - b.z as i64;
    let sum: i64 = (if dx < 0 {
        -dx
    } else {
        dx
    }) + (if dy < 0 {
        -dy
    } else {
        dy
    }) + (if dz < 0 {
        -dz
    } else {
        dz
    });
    sum / 2
}

/// A cell that waits to be expanded, and the priority under which it waits:
/// the cost at which it was reached, plus the estimate of what is left.
pub struct Node {
    pub cell: Hex,
    pub priority: i64,
}

/// A search as far as it has come: the nodes that wait, in the order in which
/// they came to wait, the least cost found for each cell, and the cell from
/// which each cell was reached at that cost.
pub struct Progress {
    pub frontier: Seq<Node>,
    pub cost: Map<CellCoord, i32>,
    pub came_from: Map<CellCoord, Hex>,
}

/// The position of the node that is taken next: the last of those with the
/// least priority, which is the one that came to wait last.
pub open spec fn last_least(frontier: Seq<Node>) -> int
    decreases frontier.len(),
{
    if frontier.len() <= 1 {
        0
    } else {
        let before = last_least(frontier.drop_last());
        if frontier.last().priority <= frontier[before].priority {
            frontier.len() - 1
        } else {
            before
        }
    }
}

/// The search after it has looked at the neighbour of `current` in direction
/// `d`: if that neighbour can be entered, and has no cost yet or is reached
/// at a lower cost by way of `current`, it gets that cost and a node for it
/// comes to wait.
pub open spec fn relaxed(
    p: Progress,
    current: Hex,
    d: int,
    goal: Hex,
    world: Set<CellCoord>,
    collisions: Set<CellCoord>,
) -> Progress {
    let n = current@.neighbor(d);
    let coord = coord_at(n);
    let new_cost = p.cost[current.spec_coord()] + 1;
    if !n.fits() || !passable(coord, world, collisions) {
        p
    } else if p.cost.contains_key(coord) && new_cost >= p.cost[coord] {
        p
    } else {
        Progress {
            frontier: p.frontier.push(
                Node { cell: coord.cell(), priority: (new_cost + spec_heuristic(goal@, n)) as i64 },
            ),
            cost: p.cost.insert(coord, new_cost as i32),
            came_from: p.came_from.insert(coord, current),
        }
    }
}

/// The search after it has looked at the neighbours of `current` in the
/// first `upto` directions, in their order.
pub open spec fn expanded(
    p: Progress,
    current: Hex,
    goal: Hex,
    world: Set<CellCoord>,
    collisions: Set<CellCoord>,
    upto: nat,
) -> Progress
    decreases upto,
{
    if upto == 0 {
        p
    } else {
        relaxed(
            expanded(p, current, goal, world, collisions, (upto - 1) as nat),
            current,
            upto - 1,
            goal,
            world,
            collisions,
        )
    }
}

/// The way from `start` to `cell`, read off `came_from` in at most `steps` steps.
pub open spec fn way_back(
    came_from: Map<CellCoord, Hex>,
    start: Hex,
    cell: Hex,
    steps: nat,
) -> Seq<Hex>
    decreases steps,
{
    if steps == 0 || cell.spec_coord() == start.spec_coord() {
        Seq::empty().push(cell)
    } else {
        way_back(came_from, start, came_from[cell.spec_coord()], (steps - 1) as nat).push(cell)
    }
}

/// What a search that has come as far as `p` finds, if it takes no more than
/// `fuel` nodes: nothing where no node waits or more than `SEARCH_LIMIT`
/// cells have a cost; else it takes the last node of least priority, and
/// either that is the goal, or its cell is expanded and the search goes on.
pub open spec fn searched(
    p: Progress,
    start: Hex,
    goal: Hex,
    world: Set<CellCoord>,
    collisions: Set<CellCoord>,
    fuel: nat,
) -> Option<Seq<Hex>>
    decreases fuel,
{
    if fuel == 0 || p.frontier.len() == 0 {
        None
    } else if p.cost.dom().len() > SEARCH_LIMIT {
        None
    } else {
        let at = last_least(p.frontier);
        let node = p.frontier[at];
        let rest = Progress {
            frontier: p.frontier.remove(at),
            cost: p.cost,
            came_from: p.came_from,
        };
        if node.cell.spec_coord() == goal.spec_coord() {
            Some(way_back(p.came_from, start, goal, p.cost[goal.spec_coord()] as nat))
        } else {
            searched(
                expanded(rest, node.cell, goal, world, collisions, 6),
                start,
                goal,
                world,
                collisions,
                (fuel - 1) as nat,
            )
        }
    }
}

/// The search before its first step: `start` waits, at no cost.
pub open spec fn search_begin(start: Hex, goal: Hex) -> Progress {
    Progress {
        frontier: Seq::empty().push(
            Node { cell: start, priority: spec_heuristic(goal@, start@) as i64 },
        ),
        cost: Map::empty().insert(start.spec_coord(), 0i32),
        came_from: Map::empty().insert(start.spec_coord(), start),
    }
}

/// More nodes than any search takes before it ends.
pub open spec fn search_fuel() -> nat {
    (2 * ((SEARCH_LIMIT + 6) * (SEARCH_LIMIT + 7)) + 2) as nat
}

/// What the search from `from` to `to` finds: nothing where something stands
/// on `to`, and else what the search from its first step finds.
pub open spec fn spec_shortest_path(
    from: Hex,
    to: Hex,
    world: Set<CellCoord>,
    collisions: Set<CellCoord>,
) -> Option<Seq<Hex>> {
    if collisions.contains(to.spec_coord()) {
        None
    } else {
        searched(search_begin(from, to), from, to, world, collisions, search_fuel())
    }
}

/// The cells of a way that was found, if one was.
pub open spec fn cells_of(found: Option<Vec<Hex>>) -> Option<Seq<Hex>> {
    match found {
        Some(path) => Some(path@),
        None => None,
    }
}

/// Takes the node of least priority out of `frontier`. Of several such nodes
/// it takes the one that came to wait last.
fn take_min(frontier: &mut Vec<Node>) -> (taken: (usize, Node))
    requires
        old(frontier)@.len() > 0,
    ensures
        taken.0 < old(frontier)@.len(),
        taken.0 == last_least(old(frontier)@),
        taken.1 == old(frontier)@[taken.0 as int],
        final(frontier)@ == old(frontier)@.remove(taken.0 as int),
        forall|j: int| 0 <= j < old(frontier)@.len() ==> taken.1.priority <= (#[trigger] old(frontier)@[j]).priority,
        forall|j: int| taken.0 < j < old(frontier)@.len() ==> taken.1.priority < (#[trigger] old(frontier)@[j]).priority,
{
    let mut best: usize = 0;
    let mut i: usize = 1;
    while i < frontier.len()
        invariant
            frontier@ == old(frontier)@,
            0 <= best < i <= frontier@.len(),
            best == last_least(frontier@.take(i as int)),
            forall|j: int| 0 <= j < i ==> frontier@[best as int].priority <= (#[trigger] frontier@[j]).priority,
            forall|j: int| best < j < i ==> frontier@[best as int].priority < (#[trigger] frontier@[j]).priority,
        decreases frontier@.len() - i,
    {
        proof {
            assert(frontier@.take(i + 1).drop_last() =~= frontier@.take(i as int));
            assert(frontier@.take(i + 1).last() == frontier@[i as int]);
            assert(frontier@.take(i + 1)[best as int] == frontier@[best as int]);
        }
        if frontier[i].priority <= frontier[best].priority {
            best = i;
        }
        i += 1;
    }
    assert(frontier@.take(frontier@.len() as int) =~= frontier@);
    let node = frontier.remove(best);
    (best, node)
}

/// The neighbour of `cell` in `direction`, if its coordinates can be held.
fn step(cell: &Hex, direction: i32) -> (next: Option<Hex>)
    requires
        cell.wf(),
        0 <= direction < 6,
    ensures
        match next {
            Some(n) => n.wf() && n@ == cell@.neighbor(direction as int),
            None => !cell@.neighbor(direction as int).fits(),
        },
{
    let unit = cell.direction(direction);
    let q: i64 = cell.q as i64 + unit.q as i64;
    let r: i64 = cell.r as i64 + unit.r as i64;
    let s: i64 = cell.s as i64 + unit.s as i64;
    if held(q) && held(r) && held(s) {
        Some(cell.neighbor(direction))
    } else {
        None
    }
}

fn held(x: i64) -> (b: bool)
    ensures
        b == (i32::MIN <= x <= i32::MAX),
{
    -0x8000_0000 <= x && x <= 0x7fff_ffff
}

/// Some node for the cell at `c` waits in `frontier`.
spec fn waiting(frontier: Seq<Node>, c: CellCoord) -> bool {
    exists|i: int| 0 <= i < frontier.len() && (#[trigger] frontier[i]).cell.spec_coord() == c
}

/// The cost at which `node` was reached.
spec fn reached_at(node: Node, goal: Hex) -> int {
    node.priority - spec_heuristic(node.cell@, goal@)
}

/// A waiting node is for a costed cell, which it reached at no less than the
/// cost the cell has now.
spec fn node_ok(node: Node, cost: Map<CellCoord, i32>, goal: Hex) -> bool {
    &&& node.cell.wf()
    &&& cost.contains_key(node.cell.spec_coord())
    &&& reached_at(node, goal) >= cost[node.cell.spec_coord()]
}

/// What holds of each costed cell: a path of as many steps as its cost leads
/// to it, by way of the cell from which it was reached.
spec fn cell_ok(
    c: CellCoord,
    cost: Map<CellCoord, i32>,
    came_from: Map<CellCoord, Hex>,
    costed: nat,
    start: Hex,
    world: Set<CellCoord>,
    collisions: Set<CellCoord>,
) -> bool {
    &&& c@.valid()
    &&& 0 <= cost[c] < costed
    &&& cost[c] >= start@.distance(c@)
    &&& reachable(start, c.cell(), world, collisions)
    &&& came_from.contains_key(c)
    &&& c != start.spec_coord() ==> {
        let parent = came_from[c];
        &&& parent.wf()
        &&& cost.contains_key(parent.spec_coord())
        &&& cost[parent.spec_coord()] < cost[c]
        &&& parent@.adjacent(c@)
        &&& passable(c, world, collisions)
    }
}

/// The cell at `n`, if there is such a cell and it is passable, has a cost.
spec fn covered(
    cost: Map<CellCoord, i32>,
    n: Cube,
    world: Set<CellCoord>,
    collisions: Set<CellCoord>,
) -> bool {
    n.fits() && passable(coord_at(n), world, collisions) ==> cost.contains_key(coord_at(n))
}

/// Every passable neighbour of the cell at `c` has a cost.
spec fn closed_at(
    cost: Map<CellCoord, i32>,
    c: CellCoord,
    world: Set<CellCoord>,
    collisions: Set<CellCoord>,
) -> bool {
    forall|d: int| 0 <= d < 6 ==> covered(cost, #[trigger] c@.neighbor(d), world, collisions)
}

#[verifier::opaque]
spec fn costs_ok(
    cost: Map<CellCoord, i32>,
    came_from: Map<CellCoord, Hex>,
    order: Seq<CellCoord>,
    start: Hex,
    world: Set<CellCoord>,
    collisions: Set<CellCoord>,
) -> bool {
    &&& order.no_duplicates()
    &&& forall|c: CellCoord| order.contains(c) <==> #[trigger] cost.contains_key(c)
    &&& cost.contains_key(start.spec_coord())
    &&& cost[start.spec_coord()] == 0
    &&& forall|c: CellCoord| #[trigger]
        cost.contains_key(c) ==> cell_ok(c, cost, came_from, order.len(), start, world, collisions)
}

#[verifier::opaque]
spec fn nodes_ok(frontier: Seq<Node>, cost: Map<CellCoord, i32>, goal: Hex) -> bool {
    forall|i: int| 0 <= i < frontier.len() ==> node_ok(#[trigger] frontier[i], cost, goal)
}

/// Each costed cell has been expanded, or waits, or is being expanded.
#[verifier::opaque]
spec fn accounted(
    frontier: Seq<Node>,
    cost: Map<CellCoord, i32>,
    expanded: Set<CellCoord>,
    current: Option<CellCoord>,
) -> bool {
    forall|c: CellCoord| #[trigger]
        cost.contains_key(c) ==> expanded.contains(c) || waiting(frontier, c) || current == Some(c)
}

/// Each expanded cell is costed, is not the goal, and has its passable
/// neighbours costed.
#[verifier::opaque]
spec fn closed_ok(
    cost: Map<CellCoord, i32>,
    expanded: Set<CellCoord>,
    goal: Hex,
    world: Set<CellCoord>,
    collisions: Set<CellCoord>,
) -> bool {
    forall|c: CellCoord| #[trigger]
        expanded.contains(c) ==> cost.contains_key(c) && c != goal.spec_coord() && closed_at(
            cost,
            c,
            world,
            collisions,
        )
}

/// The node through which the cell at `c` got the cost it has now still waits.
spec fn fresh(frontier: Seq<Node>, cost: Map<CellCoord, i32>, c: CellCoord, goal: Hex) -> bool {
    exists|i: int|
        0 <= i < frontier.len() && (#[trigger] frontier[i]).cell.spec_coord() == c && reached_at(
            frontier[i],
            goal,
        ) == cost[c]
}

/// The node through which the cell at `c` got the cost it has now waits at
/// the position `mark` or behind it.
spec fn fresh_from(
    frontier: Seq<Node>,
    cost: Map<CellCoord, i32>,
    c: CellCoord,
    goal: Hex,
    mark: int,
) -> bool {
    exists|i: int|
        0 <= mark <= i < frontier.len() && (#[trigger] frontier[i]).cell.spec_coord() == c
            && reached_at(frontier[i], goal) == cost[c]
}

/// `node` was reached after `steps` steps, each of which led nearer to the goal.
spec fn on_course(node: Node, steps: int, start: Hex, goal: Hex) -> bool {
    reached_at(node, goal) == steps && node.cell@.distance(goal@) == start@.distance(goal@) - steps
}

/// How the search goes where every cell on a shortest way to the goal can be
/// entered: the `pops` cells expanded so far lie on one such way, the nodes
/// from `mark` on came to wait when the last of them was expanded, and the
/// next cell of the way is among them, or is `current`.
#[verifier::opaque]
spec fn on_track(
    frontier: Seq<Node>,
    cost: Map<CellCoord, i32>,
    pops: int,
    mark: int,
    current: Option<CellCoord>,
    start: Hex,
    goal: Hex,
) -> bool {
    let bound = if current is Some {
        pops + 1
    } else {
        pops
    };
    &&& 0 <= pops <= start@.distance(goal@)
    &&& 0 <= mark <= frontier.len()
    &&& forall|c: CellCoord| #[trigger] cost.contains_key(c) ==> cost[c] <= bound
    &&& forall|i: int|
        mark <= i < frontier.len() ==> reached_at(#[trigger] frontier[i], goal) == bound
    &&& forall|c: CellCoord| #[trigger]
        cost.contains_key(c) && cost[c] >= bound ==> fresh_from(frontier, cost, c, goal, mark)
    &&& match current {
        Some(c) => cost.contains_key(c) && cost[c] == pops && c@.distance(goal@)
            == start@.distance(goal@) - pops,
        None => exists|i: int|
            mark <= i < frontier.len() && on_course(#[trigger] frontier[i], pops, start, goal),
    }
}

/// The cell at `n`, if there is such a cell and it can be entered, is costed
/// at no more than one step beyond the cell at `c`.
spec fn eased(
    cost: Map<CellCoord, i32>,
    c: CellCoord,
    n: Cube,
    world: Set<CellCoord>,
    collisions: Set<CellCoord>,
) -> bool {
    n.fits() && passable(coord_at(n), world, collisions) ==> cost.contains_key(coord_at(n))
        && cost[coord_at(n)] <= cost[c] + 1
}

/// Every neighbour of the cell at `c` that can be entered is costed at no
/// more than one step beyond it.
spec fn eased_around(
    cost: Map<CellCoord, i32>,
    c: CellCoord,
    world: Set<CellCoord>,
    collisions: Set<CellCoord>,
) -> bool {
    forall|d: int| 0 <= d < 6 ==> eased(cost, c, #[trigger] c@.neighbor(d), world, collisions)
}

/// Each costed cell still waits at the cost it has, or its neighbours have
/// been costed from it; the goal, once costed, waits.
#[verifier::opaque]
spec fn settled(
    frontier: Seq<Node>,
    cost: Map<CellCoord, i32>,
    current: Option<CellCoord>,
    goal: Hex,
    world: Set<CellCoord>,
    collisions: Set<CellCoord>,
) -> bool {
    &&& forall|c: CellCoord| #[trigger]
        cost.contains_key(c) && current != Some(c) ==> fresh(frontier, cost, c, goal)
            || eased_around(cost, c, world, collisions)
    &&& cost.contains_key(goal.spec_coord()) && current != Some(goal.spec_coord()) ==> fresh(
        frontier,
        cost,
        goal.spec_coord(),
        goal,
    )
}

/// What bounds the work that is left: each costed cell may still be reached
/// at a lower cost, each cell not yet costed may still be costed, and each
/// waiting node is still to be taken.
spec fn fuel(frontier: Seq<Node>, cost: Map<CellCoord, i32>, order: Seq<CellCoord>) -> int {
    2 * (cost_sum(order, cost) + (costed_bound() - order.len()) * costed_bound()) + frontier.len()
}

/// The state of a search.
struct Search {
    /// The cells that wait to be expanded.
    frontier: Vec<Node>,
    /// For each costed cell but the first, the cell from which it was reached.
    came_from: CoordMap<Hex>,
    /// The least cost found so far at which each cell is reached.
    cost_so_far: CoordMap<i32>,
    /// The costed cells, in the order in which they were first costed.
    order: Ghost<Seq<CellCoord>>,
    /// The cells whose neighbours have all been looked at.
    expanded: Ghost<Set<CellCoord>>,
    /// The number of cells that have been expanded, each time it was expanded.
    pops: Ghost<int>,
    /// The number of nodes that waited when the last cell began to be expanded.
    mark: Ghost<int>,
}

impl Search {
    spec fn inv(
        &self,
        current: Option<CellCoord>,
        start: Hex,
        goal: Hex,
        world: Set<CellCoord>,
        collisions: Set<CellCoord>,
    ) -> bool {
        &&& start.wf()
        &&& goal.wf()
        &&& self.cost_so_far.wf()
        &&& self.order@.len() <= costed_bound()
        &&& costs_ok(self.cost_so_far@, self.came_from@, self.order@, start, world, collisions)
        &&& nodes_ok(self.frontier@, self.cost_so_far@, goal)
        &&& accounted(self.frontier@, self.cost_so_far@, self.expanded@, current)
        &&& closed_ok(self.cost_so_far@, self.expanded@, goal, world, collisions)
        &&& clear_between(start, goal, world, collisions) ==> on_track(
            self.frontier@,
            self.cost_so_far@,
            self.pops@,
            self.mark@,
            current,
            start,
            goal,
        )
        &&& clear_between(start, goal, world, collisions) && current is None
            ==> self.order@.len() <= 1 + 6 * self.pops@
        &&& settled(self.frontier@, self.cost_so_far@, current, goal, world, collisions)
    }

    spec fn fuel(&self) -> int {
        fuel(self.frontier@, self.cost_so_far@, self.order@)
    }

    /// How far the search has come.
    spec fn progress(&self) -> Progress {
        Progress {
            frontier: self.frontier@,
            cost: self.cost_so_far@,
            came_from: self.came_from@,
        }
    }

    /// The search that has costed `start` alone.
    fn new(
        start: &Hex,
        goal: &Hex,
        Ghost(world): Ghost<Set<CellCoord>>,
        Ghost(collisions): Ghost<Set<CellCoord>>,
    ) -> (search: Search)
        requires
            start.wf(),
            goal.wf(),
        ensures
            search.inv(None, *start, *goal, world, collisions),
            search.order@.len() == 1,
            search.frontier@.len() == 1,
            search.progress() == search_begin(*start, *goal),
            search.fuel() + 1 <= search_fuel(),
    {
        let mut frontier: Vec<Node> = Vec::new();
        frontier.push(Node { cell: *start, priority: heuristic(&goal.coord(), &start.coord()) });
        let mut came_from: CoordMap<Hex> = CoordMap::new();
        came_from.insert(start.coord(), *start);
        let mut cost_so_far: CoordMap<i32> = CoordMap::new();
        cost_so_far.insert(start.coord(), 0);
        let order: Ghost<Seq<CellCoord>> = Ghost(Seq::empty().push(start.spec_coord()));
        let expanded: Ghost<Set<CellCoord>> = Ghost(Set::empty());
        let pops: Ghost<int> = Ghost(0);
        let mark: Ghost<int> = Ghost(0);
        let search = Search { frontier, came_from, cost_so_far, order, expanded, pops, mark };
        proof {
            reveal(costs_ok);
            reveal(on_track);
            lemma_distance_symmetry(start@, goal@);
            reveal(nodes_ok);
            reveal(accounted);
            reveal(closed_ok);
            let c = start.spec_coord();
            assert(search.order@[0] == c);
            assert(search.frontier@[0].cell.spec_coord() == c);
            assert(waiting(search.frontier@, c));
            lemma_reachable_self(*start, world, collisions);
            lemma_distance_symmetry(start@, start@);
            assert(c.cell() == *start);
            assert(cell_ok(
                c,
                search.cost_so_far@,
                search.came_from@,
                search.order@.len(),
                *start,
                world,
                collisions,
            ));
            assert(node_ok(search.frontier@[0], search.cost_so_far@, *goal));
            lemma_heuristic(start@, goal@);
            assert(on_course(search.frontier@[0], 0, *start, *goal));
            assert(fresh(search.frontier@, search.cost_so_far@, c, *goal));
            assert(fresh_from(search.frontier@, search.cost_so_far@, c, *goal, 0));
            assert(settled(search.frontier@, search.cost_so_far@, None, *goal, world, collisions))
                by {
                reveal(settled);
            }
            assert(search.order@.drop_last() =~= Seq::<CellCoord>::empty());
            reveal_with_fuel(cost_sum, 2);
            assert(cost_sum(search.order@, search.cost_so_far@) == 0);
            assert((costed_bound() - search.order@.len()) * costed_bound() == (SEARCH_LIMIT + 6)
                * (SEARCH_LIMIT + 7)) by (nonlinear_arith)
                requires
                    costed_bound() == SEARCH_LIMIT + 7,
                    search.order@.len() == 1,
            ;
            assert((SEARCH_LIMIT + 6) * (SEARCH_LIMIT + 7) >= 0) by (nonlinear_arith);
        }
        search
    }

    /// Looks at the neighbour of `current` in `direction`: if it can be
    /// entered, and has no cost yet or is reached at a lower cost by way of
    /// `current`, it gets that cost and waits to be expanded.
    fn relax(
        &mut self,
        current: &Hex,
        direction: i32,
        goal: &Hex,
        base_map: &CoordSet,
        collisions: &CoordSet,
        Ghost(start): Ghost<Hex>,
    )
        requires
            old(self).inv(Some(current.spec_coord()), start, *goal, base_map@, collisions@),
            current.wf(),
            old(self).cost_so_far@.contains_key(current.spec_coord()),
            0 <= direction < 6,
            old(self).order@.len() < costed_bound(),
        ensures
            final(self).inv(Some(current.spec_coord()), start, *goal, base_map@, collisions@),
            final(self).expanded@ == old(self).expanded@,
            final(self).pops@ == old(self).pops@,
            final(self).mark@ == old(self).mark@,
            forall|c: CellCoord|
                old(self).cost_so_far@.contains_key(c) ==> #[trigger] final(self).cost_so_far@.contains_key(c),
            covered(
                final(self).cost_so_far@,
                current@.neighbor(direction as int),
                base_map@,
                collisions@,
            ),
            final(self).order@.len() <= old(self).order@.len() + 1,
            final(self).fuel() <= old(self).fuel(),
            final(self).progress() == relaxed(
                old(self).progress(),
                *current,
                direction as int,
                *goal,
                base_map@,
                collisions@,
            ),
            eased(
                final(self).cost_so_far@,
                current.spec_coord(),
                current@.neighbor(direction as int),
                base_map@,
                collisions@,
            ),
            final(self).cost_so_far@[current.spec_coord()] == old(self).cost_so_far@[current.spec_coord()],
            forall|c: CellCoord| #[trigger]
                old(self).cost_so_far@.contains_key(c) ==> final(self).cost_so_far@[c] <= old(
                    self,
                ).cost_so_far@[c],
    {
        proof {
            reveal(costs_ok);
        }
        let next = match step(current, direction) {
            Some(n) => n,
            None => {
                return ;
            },
        };
        let coord = next.coord();
        assert(coord == coord_at(current@.neighbor(direction as int)));
        if !base_map.contains(&coord) || collisions.contains(&coord) {
            return ;
        }
        let here = current.coord();
        let current_cost = match self.cost_so_far.get(&here) {
            Some(cost) => *cost,
            None => 0,
        };
        let new_cost = current_cost + 1;
        let better = match self.cost_so_far.get(&coord) {
            Some(cost) => new_cost < *cost,
            None => true,
        };
        if better {
            let ghost before = *self;
            let ghost known = self.cost_so_far@.contains_key(coord);
            proof {
                if known {
                    lemma_cost_sum_set(self.order@, self.cost_so_far@, coord, new_cost);
                } else {
                    lemma_cost_sum_other(self.order@, self.cost_so_far@, coord, new_cost);
                    assert(self.order@.push(coord).drop_last() =~= self.order@);
                }
                assert(here.cell() == *current);
                assert(current@.adjacent(next@));
                lemma_reachable_step(start, *current, next, base_map@, collisions@);
                lemma_neighbor_distance(current@, direction as int);
                lemma_distance_triangle(start@, current@, next@);
            }
            self.cost_so_far.insert(coord, new_cost);
            let priority = new_cost as i64 + heuristic(&goal.coord(), &coord);
            let node = Node { cell: next, priority };
            self.frontier.push(node);
            self.came_from.insert(coord, *current);
            proof {
                if !known {
                    self.order@ = self.order@.push(coord);
                }
                lemma_relaxed(
                    before,
                    *self,
                    *current,
                    next,
                    node,
                    new_cost,
                    start,
                    *goal,
                    base_map@,
                    collisions@,
                );
            }
        }
    }

    /// Looks at all six neighbours of `current`, which then counts as expanded.
    fn expand(
        &mut self,
        current: &Hex,
        goal: &Hex,
        base_map: &CoordSet,
        collisions: &CoordSet,
        Ghost(start): Ghost<Hex>,
    )
        requires
            old(self).inv(Some(current.spec_coord()), start, *goal, base_map@, collisions@),
            current.wf(),
            old(self).cost_so_far@.contains_key(current.spec_coord()),
            current.spec_coord() != goal.spec_coord(),
            old(self).order@.len() <= SEARCH_LIMIT,
            clear_between(start, *goal, base_map@, collisions@) ==> old(self).order@.len() <= 1 + 6
                * old(self).pops@,
        ensures
            final(self).inv(None, start, *goal, base_map@, collisions@),
            final(self).order@.len() <= old(self).order@.len() + 6,
            final(self).fuel() <= old(self).fuel(),
            final(self).progress() == expanded(
                old(self).progress(),
                *current,
                *goal,
                base_map@,
                collisions@,
                6,
            ),
    {
        let ghost here = current.spec_coord();
        let ghost before = *self;
        let mut direction: i32 = 0;
        while direction < 6
            invariant
                self.inv(Some(here), start, *goal, base_map@, collisions@),
                here == current.spec_coord(),
                current.wf(),
                self.cost_so_far@.contains_key(here),
                0 <= direction <= 6,
                before.order@.len() <= SEARCH_LIMIT,
                self.order@.len() <= before.order@.len() + direction,
                self.fuel() <= before.fuel(),
                self.expanded@ == before.expanded@,
                self.pops@ == before.pops@,
                self.mark@ == before.mark@,
                self.progress() == expanded(
                    before.progress(),
                    *current,
                    *goal,
                    base_map@,
                    collisions@,
                    direction as nat,
                ),
                forall|d: int|
                    0 <= d < direction ==> eased(
                        self.cost_so_far@,
                        here,
                        #[trigger] here@.neighbor(d),
                        base_map@,
                        collisions@,
                    ),
                forall|d: int|
                    0 <= d < direction ==> covered(
                        self.cost_so_far@,
                        #[trigger] here@.neighbor(d),
                        base_map@,
                        collisions@,
                    ),
            decreases 6 - direction,
        {
            let ghost earlier = *self;
            self.relax(current, direction, goal, base_map, collisions, Ghost(start));
            proof {
                assert forall|d: int| 0 <= d < direction + 1 implies eased(
                    self.cost_so_far@,
                    here,
                    #[trigger] here@.neighbor(d),
                    base_map@,
                    collisions@,
                ) by {
                    if d < direction {
                        assert(eased(
                            earlier.cost_so_far@,
                            here,
                            here@.neighbor(d),
                            base_map@,
                            collisions@,
                        ));
                        if here@.neighbor(d).fits() && passable(
                            coord_at(here@.neighbor(d)),
                            base_map@,
                            collisions@,
                        ) {
                            assert(earlier.cost_so_far@.contains_key(coord_at(here@.neighbor(d))));
                        }
                    }
                }
                assert forall|d: int| 0 <= d < direction + 1 implies covered(
                    self.cost_so_far@,
                    #[trigger] here@.neighbor(d),
                    base_map@,
                    collisions@,
                ) by {
                    if d < direction {
                        assert(covered(
                            earlier.cost_so_far@,
                            here@.neighbor(d),
                            base_map@,
                            collisions@,
                        ));
                    }
                }
            }
            direction += 1;
        }
        let ghost filled = *self;
        proof {
            self.expanded@ = self.expanded@.insert(here);
            self.pops@ = self.pops@ + 1;
            lemma_expanded(filled, *self, *current, start, *goal, base_map@, collisions@);
        }
    }

    /// The way from `start` to `goal` that the search has found: from `goal`
    /// back, from each cell to the cell from which it was reached.
    fn path_to(
        &self,
        start: &Hex,
        goal: &Hex,
        Ghost(current): Ghost<Option<CellCoord>>,
        Ghost(world): Ghost<Set<CellCoord>>,
        Ghost(collisions): Ghost<Set<CellCoord>>,
    ) -> (path: Vec<Hex>)
        requires
            self.inv(current, *start, *goal, world, collisions),
            self.cost_so_far@.contains_key(goal.spec_coord()),
        ensures
            is_path(path@, *start, *goal, world, collisions),
            path@.len() <= self.cost_so_far@[goal.spec_coord()] + 1,
            path@.no_duplicates(),
            path@ == way_back(
                self.came_from@,
                *start,
                *goal,
                self.cost_so_far@[goal.spec_coord()] as nat,
            ),
    {
        let mut back: Vec<Hex> = Vec::new();
        back.push(*goal);
        let mut cell = *goal;
        let ghost mut tail: Seq<Hex> = Seq::empty();
        let ghost whole = way_back(
            self.came_from@,
            *start,
            *goal,
            self.cost_so_far@[goal.spec_coord()] as nat,
        );
        let ghost mut left: nat = self.cost_so_far@[goal.spec_coord()] as nat;
        proof {
            lemma_cost_nonneg(*self, current, *start, *goal, world, collisions, *goal);
        }
        while cell.coord() != start.coord()
            invariant
                self.inv(current, *start, *goal, world, collisions),
                self.cost_so_far@.contains_key(goal.spec_coord()),
                cell.wf(),
                self.cost_so_far@[cell.spec_coord()] >= 0,
                self.cost_so_far@.contains_key(cell.spec_coord()),
                back@.len() >= 1,
                back@[0] == *goal,
                back@.last() == cell,
                forall|i: int| 0 <= i < back@.len() ==> (#[trigger] back@[i]).wf(),
                forall|i: int|
                    0 < i < back@.len() ==> (#[trigger] back@[i])@.adjacent(back@[i - 1]@)
                        && passable(back@[i - 1].spec_coord(), world, collisions),
                back@.len() + self.cost_so_far@[cell.spec_coord()]
                    <= self.cost_so_far@[goal.spec_coord()] + 1,
                forall|i: int|
                    0 <= i < back@.len() - 1 ==> self.cost_so_far@[(#[trigger] back@[i]).spec_coord()]
                        > self.cost_so_far@[cell.spec_coord()],
                back@.no_duplicates(),
                tail.len() == back@.len() - 1,
                forall|k: int| 0 <= k < tail.len() ==> #[trigger] tail[k] == back@[back@.len() - 2 - k],
                left >= self.cost_so_far@[cell.spec_coord()],
                whole == way_back(self.came_from@, *start, cell, left) + tail,
            decreases self.cost_so_far@[cell.spec_coord()],
        {
            let ghost earlier = back@;
            proof {
                lemma_parent(*self, current, *start, *goal, world, collisions, cell);
            }
            let parent = match self.came_from.get(&cell.coord()) {
                Some(parent) => *parent,
                None => *start,
            };
            back.push(parent);
            proof {
                let longer = Seq::<Hex>::empty().push(cell) + tail;
                assert(way_back(self.came_from@, *start, cell, left) == way_back(
                    self.came_from@,
                    *start,
                    parent,
                    (left - 1) as nat,
                ).push(cell));
                assert(way_back(self.came_from@, *start, parent, (left - 1) as nat).push(cell)
                    + tail =~= way_back(self.came_from@, *start, parent, (left - 1) as nat)
                    + longer);
                assert forall|k: int| 0 <= k < longer.len() implies #[trigger] longer[k]
                    == back@[back@.len() - 2 - k] by {
                    if k > 0 {
                        assert(longer[k] == tail[k - 1]);
                        assert(back@[back@.len() - 2 - k] == earlier[earlier.len() - 2 - (k - 1)]);
                    } else {
                        assert(back@[back@.len() - 2] == earlier[earlier.len() - 1]);
                    }
                }
                tail = longer;
                left = (left - 1) as nat;
                assert forall|i: int| 0 <= i < back@.len() - 1 implies self.cost_so_far@[(
                #[trigger] back@[i]).spec_coord()] > self.cost_so_far@[parent.spec_coord()] by {
                    assert(back@[i] == earlier[i]);
                    if i < earlier.len() - 1 {
                    } else {
                        assert(earlier[i] == cell);
                    }
                }
                assert forall|i: int, j: int|
                    0 <= i < back@.len() && 0 <= j < back@.len() && i != j implies back@[i]
                    != back@[j] by {
                    if i < earlier.len() && j < earlier.len() {
                        assert(back@[i] == earlier[i] && back@[j] == earlier[j]);
                    }
                }
                assert forall|i: int| 0 <= i < back@.len() implies (#[trigger] back@[i]).wf() by {
                    if i < earlier.len() {
                        assert(back@[i] == earlier[i]);
                    }
                }
                assert forall|i: int| 0 < i < back@.len() implies (#[trigger] back@[i])@.adjacent(
                    back@[i - 1]@,
                ) && passable(back@[i - 1].spec_coord(), world, collisions) by {
                    if i < earlier.len() {
                        assert(back@[i] == earlier[i]);
                        assert(back@[i - 1] == earlier[i - 1]);
                    } else {
                        assert(back@[i - 1] == cell);
                    }
                }
            }
            cell = parent;
        }
        assert(cell == *start);
        let n = back.len();
        let mut path: Vec<Hex> = Vec::new();
        let mut i: usize = n;
        while i > 0
            invariant
                n == back@.len(),
                n <= self.cost_so_far@[goal.spec_coord()] + 1,
                back@.no_duplicates(),
                tail.len() == n - 1,
                forall|k: int| 0 <= k < tail.len() ==> #[trigger] tail[k] == back@[n - 2 - k],
                0 <= i <= n,
                path@.len() == n - i,
                forall|j: int| 0 <= j < path@.len() ==> #[trigger] path@[j] == back@[n - 1 - j],
            decreases i,
        {
            i -= 1;
            path.push(back[i]);
        }
        proof {
            assert(way_back(self.came_from@, *start, *start, left) == Seq::<Hex>::empty().push(
                *start,
            ));
            assert(path@ =~= Seq::<Hex>::empty().push(*start) + tail) by {
                assert forall|j: int| 0 <= j < path@.len() implies path@[j] == (
                Seq::<Hex>::empty().push(*start) + tail)[j] by {
                    assert(path@[j] == back@[n - 1 - j]);
                    if j > 0 {
                        assert(tail[j - 1] == back@[n - 2 - (j - 1)]);
                    }
                }
            }
            assert forall|j: int, k: int|
                0 <= j < path@.len() && 0 <= k < path@.len() && j != k implies path@[j]
                != path@[k] by {
                assert(path@[j] == back@[n - 1 - j]);
                assert(path@[k] == back@[n - 1 - k]);
            }
            assert forall|j: int| 0 <= j < path@.len() implies (#[trigger] path@[j]).wf() by {
                assert(back@[n - 1 - j].wf());
            }
            assert forall|j: int| 0 < j < path@.len() implies path@[j - 1]@.adjacent(
                (#[trigger] path@[j])@,
            ) && passable(path@[j].spec_coord(), world, collisions) by {
                assert(path@[j - 1] == back@[n - j]);
                assert(back@[n - j]@.adjacent(back@[n - j - 1]@));
            }
        }
        path
    }
}

/// Once all six neighbours of `current` have been looked at, the search
/// stands with `current` expanded.
proof fn lemma_expanded(
    filled: Search,
    after: Search,
    current: Hex,
    start: Hex,
    goal: Hex,
    world: Set<CellCoord>,
    collisions: Set<CellCoord>,
)
    requires
        filled.inv(Some(current.spec_coord()), start, goal, world, collisions),
        current.wf(),
        filled.cost_so_far@.contains_key(current.spec_coord()),
        current.spec_coord() != goal.spec_coord(),
        forall|d: int|
            0 <= d < 6 ==> covered(
                filled.cost_so_far@,
                #[trigger] current.spec_coord()@.neighbor(d),
                world,
                collisions,
            ),
        forall|d: int|
            0 <= d < 6 ==> eased(
                filled.cost_so_far@,
                current.spec_coord(),
                #[trigger] current.spec_coord()@.neighbor(d),
                world,
                collisions,
            ),
        after.frontier == filled.frontier,
        after.came_from == filled.came_from,
        after.cost_so_far == filled.cost_so_far,
        after.order == filled.order,
        after.expanded@ == filled.expanded@.insert(current.spec_coord()),
        after.pops@ == filled.pops@ + 1,
        after.mark@ == filled.mark@,
        clear_between(start, goal, world, collisions) ==> filled.order@.len() <= 1 + 6 * (
        filled.pops@ + 1),
    ensures
        after.inv(None, start, goal, world, collisions),
{
    let here = current.spec_coord();
    let cost = filled.cost_so_far@;
    assert(settled(after.frontier@, cost, None, goal, world, collisions)) by {
        reveal(settled);
        assert(eased_around(cost, here, world, collisions));
    }
    assert(accounted(after.frontier@, cost, after.expanded@, None)) by {
        reveal(accounted);
    }
    assert(closed_ok(cost, after.expanded@, goal, world, collisions)) by {
        reveal(closed_ok);
        assert forall|c: CellCoord| #[trigger]
            after.expanded@.contains(c) implies cost.contains_key(c) && c != goal.spec_coord()
            && closed_at(cost, c, world, collisions) by {
            if c != here {
                assert(filled.expanded@.contains(c));
            }
        }
    }
    if clear_between(start, goal, world, collisions) {
        reveal(on_track);
        reveal(costs_ok);
        let pops = filled.pops@;
        let d = lemma_step_closer(current@, goal@);
        let n = current@.neighbor(d);
        let next = Hex { q: n.q as i32, r: n.r as i32, s: n.s as i32 };
        let coord = next.spec_coord();
        assert(next@ == n);
        assert(coord == coord_at(here@.neighbor(d)));
        assert(cell_ok(here, cost, filled.came_from@, filled.order@.len(), start, world, collisions));
        assert(here@ == current@);
        lemma_neighbor_distance(current@, d);
        lemma_distance_triangle(start@, current@, n);
        lemma_distance_triangle(start@, n, goal@);
        lemma_distance_symmetry(start@, start@);
        assert(start@.distance(n) == pops + 1);
        assert(next != start);
        assert(passable(next.spec_coord(), world, collisions));
        assert(covered(cost, here@.neighbor(d), world, collisions));
        assert(cost.contains_key(coord));
        assert(cell_ok(coord, cost, filled.came_from@, filled.order@.len(), start, world, collisions));
        lemma_distance_triangle(start@, n, goal@);
        assert(cost[coord] == pops + 1);
        assert(fresh_from(filled.frontier@, cost, coord, goal, filled.mark@));
        let i = choose|i: int|
            0 <= filled.mark@ <= i < filled.frontier@.len() && (
            #[trigger] filled.frontier@[i]).cell.spec_coord() == coord && reached_at(
                filled.frontier@[i],
                goal,
            ) == cost[coord];
        assert(filled.frontier@[i].cell@ == n);
        assert(on_course(after.frontier@[i], pops + 1, start, goal));
        lemma_distance_symmetry(current@, goal@);
        assert(on_track(after.frontier@, cost, after.pops@, after.mark@, None, start, goal));
    }
}

/// What `relax` has done to a search when it gave the cell `next` the cost
/// `new_cost`, reached by way of `current`, and let `node` wait for it.
proof fn lemma_relaxed(
    before: Search,
    after: Search,
    current: Hex,
    next: Hex,
    node: Node,
    new_cost: i32,
    start: Hex,
    goal: Hex,
    world: Set<CellCoord>,
    collisions: Set<CellCoord>,
)
    requires
        before.inv(Some(current.spec_coord()), start, goal, world, collisions),
        before.order@.len() < costed_bound(),
        current.wf(),
        next.wf(),
        before.cost_so_far@.contains_key(current.spec_coord()),
        new_cost == before.cost_so_far@[current.spec_coord()] + 1,
        current@.adjacent(next@),
        passable(next.spec_coord(), world, collisions),
        reachable(start, next, world, collisions),
        new_cost >= start@.distance(next@),
        before.cost_so_far@.contains_key(next.spec_coord()) ==> new_cost
            < before.cost_so_far@[next.spec_coord()],
        node.cell == next,
        reached_at(node, goal) == new_cost,
        after.cost_so_far.wf(),
        after.cost_so_far@ == before.cost_so_far@.insert(next.spec_coord(), new_cost),
        after.came_from@ == before.came_from@.insert(next.spec_coord(), current),
        after.frontier@ == before.frontier@.push(node),
        after.expanded@ == before.expanded@,
        after.pops@ == before.pops@,
        after.mark@ == before.mark@,
        after.order@ == (if before.cost_so_far@.contains_key(next.spec_coord()) {
            before.order@
        } else {
            before.order@.push(next.spec_coord())
        }),
        cost_sum(after.order@, after.cost_so_far@) + (costed_bound() - after.order@.len())
            * costed_bound() < cost_sum(before.order@, before.cost_so_far@) + (costed_bound()
            - before.order@.len()) * costed_bound(),
    ensures
        after.inv(Some(current.spec_coord()), start, goal, world, collisions),
        after.fuel() <= before.fuel(),
{
    let here = current.spec_coord();
    let coord = next.spec_coord();
    let known = before.cost_so_far@.contains_key(coord);
    let at = before.frontier@.len() as int;
    lemma_relaxed_settled(
        before.frontier@,
        before.cost_so_far@,
        here,
        coord,
        new_cost,
        node,
        goal,
        world,
        collisions,
    );
    assert(after.frontier@[at] == node);
    assert(coord.cell() == next);
    assert(nodes_ok(after.frontier@, after.cost_so_far@, goal)) by {
        reveal(nodes_ok);
        assert forall|i: int| 0 <= i < after.frontier@.len() implies node_ok(
            #[trigger] after.frontier@[i],
            after.cost_so_far@,
            goal,
        ) by {
            if i < at {
                assert(after.frontier@[i] == before.frontier@[i]);
                assert(node_ok(before.frontier@[i], before.cost_so_far@, goal));
            }
        }
    }
    assert(accounted(after.frontier@, after.cost_so_far@, after.expanded@, Some(here))) by {
        reveal(accounted);
        assert forall|c: CellCoord| #[trigger]
            after.cost_so_far@.contains_key(c) implies after.expanded@.contains(c) || waiting(
            after.frontier@,
            c,
        ) || Some(here) == Some(c) by {
            if c == coord {
                assert(waiting(after.frontier@, c));
            } else {
                assert(before.cost_so_far@.contains_key(c));
                if waiting(before.frontier@, c) {
                    let i = choose|i: int|
                        0 <= i < before.frontier@.len() && (
                        #[trigger] before.frontier@[i]).cell.spec_coord() == c;
                    assert(after.frontier@[i] == before.frontier@[i]);
                    assert(waiting(after.frontier@, c));
                }
            }
        }
    }
    assert(closed_ok(after.cost_so_far@, after.expanded@, goal, world, collisions)) by {
        reveal(closed_ok);
        assert forall|c: CellCoord| #[trigger]
            after.expanded@.contains(c) implies after.cost_so_far@.contains_key(c) && c
            != goal.spec_coord() && closed_at(after.cost_so_far@, c, world, collisions) by {
            assert(closed_at(before.cost_so_far@, c, world, collisions));
            assert forall|d: int| 0 <= d < 6 implies covered(
                after.cost_so_far@,
                #[trigger] c@.neighbor(d),
                world,
                collisions,
            ) by {
                assert(covered(before.cost_so_far@, c@.neighbor(d), world, collisions));
            }
        }
    }
    if clear_between(start, goal, world, collisions) {
        reveal(on_track);
        let bound = before.pops@ + 1;
        let mark = before.mark@;
        assert forall|i: int| mark <= i < after.frontier@.len() implies reached_at(
            #[trigger] after.frontier@[i],
            goal,
        ) == bound by {
            if i < at {
                assert(after.frontier@[i] == before.frontier@[i]);
            }
        }
        assert forall|c: CellCoord| #[trigger]
            after.cost_so_far@.contains_key(c) && after.cost_so_far@[c]
                >= bound implies fresh_from(after.frontier@, after.cost_so_far@, c, goal, mark) by {
            if c != coord {
                assert(before.cost_so_far@.contains_key(c));
                assert(fresh_from(before.frontier@, before.cost_so_far@, c, goal, mark));
                let i = choose|i: int|
                    0 <= mark <= i < before.frontier@.len() && (
                    #[trigger] before.frontier@[i]).cell.spec_coord() == c && reached_at(
                        before.frontier@[i],
                        goal,
                    ) == before.cost_so_far@[c];
                assert(after.frontier@[i] == before.frontier@[i]);
            } else {
                assert(after.frontier@[at].cell.spec_coord() == coord);
            }
        }
        assert(on_track(
            after.frontier@,
            after.cost_so_far@,
            after.pops@,
            after.mark@,
            Some(here),
            start,
            goal,
        ));
    }
    assert(costs_ok(after.cost_so_far@, after.came_from@, after.order@, start, world, collisions))
        by {
        reveal(costs_ok);
        assert(cell_ok(
            here,
            before.cost_so_far@,
            before.came_from@,
            before.order@.len(),
            start,
            world,
            collisions,
        ));
        if known {
            assert(cell_ok(
                coord,
                before.cost_so_far@,
                before.came_from@,
                before.order@.len(),
                start,
                world,
                collisions,
            ));
        }
        assert forall|c: CellCoord| #[trigger]
            after.cost_so_far@.contains_key(c) implies cell_ok(
            c,
            after.cost_so_far@,
            after.came_from@,
            after.order@.len(),
            start,
            world,
            collisions,
        ) by {
            if c != coord {
                assert(before.cost_so_far@.contains_key(c));
                assert(cell_ok(
                    c,
                    before.cost_so_far@,
                    before.came_from@,
                    before.order@.len(),
                    start,
                    world,
                    collisions,
                ));
            }
        }
        assert forall|c: CellCoord| after.order@.contains(c) <==> #[trigger]
            after.cost_so_far@.contains_key(c) by {
            if !known {
                if after.order@.contains(c) {
                    let i = choose|i: int| 0 <= i < after.order@.len() && after.order@[i] == c;
                    if i < before.order@.len() {
                        assert(before.order@[i] == c);
                        assert(before.order@.contains(c));
                    }
                }
                if after.cost_so_far@.contains_key(c) {
                    if c == coord {
                        assert(after.order@[before.order@.len() as int] == c);
                    } else {
                        assert(before.order@.contains(c));
                        let i = choose|i: int|
                            0 <= i < before.order@.len() && before.order@[i] == c;
                        assert(after.order@[i] == c);
                    }
                }
            }
        }
        assert(after.order@.no_duplicates()) by {
            if !known {
                assert(!before.order@.contains(coord));
            }
        }
    }
}

/// No cost is negative.
proof fn lemma_cost_nonneg(
    search: Search,
    current: Option<CellCoord>,
    start: Hex,
    goal: Hex,
    world: Set<CellCoord>,
    collisions: Set<CellCoord>,
    cell: Hex,
)
    requires
        search.inv(current, start, goal, world, collisions),
        search.cost_so_far@.contains_key(cell.spec_coord()),
    ensures
        search.cost_so_far@[cell.spec_coord()] >= 0,
{
    reveal(costs_ok);
    assert(cell_ok(
        cell.spec_coord(),
        search.cost_so_far@,
        search.came_from@,
        search.order@.len(),
        start,
        world,
        collisions,
    ));
}

/// Taking a node out of the frontier leaves every other cell as it was.
proof fn lemma_taken_settled(
    frontier: Seq<Node>,
    cost: Map<CellCoord, i32>,
    at: int,
    goal: Hex,
    world: Set<CellCoord>,
    collisions: Set<CellCoord>,
)
    requires
        settled(frontier, cost, None, goal, world, collisions),
        0 <= at < frontier.len(),
    ensures
        settled(
            frontier.remove(at),
            cost,
            Some(frontier[at].cell.spec_coord()),
            goal,
            world,
            collisions,
        ),
{
    reveal(settled);
    let rest = frontier.remove(at);
    let here = frontier[at].cell.spec_coord();
    assert forall|c: CellCoord| cost.contains_key(c) && c != here && fresh(
        frontier,
        cost,
        c,
        goal,
    ) implies fresh(rest, cost, c, goal) by {
        let i = choose|i: int|
            0 <= i < frontier.len() && (#[trigger] frontier[i]).cell.spec_coord() == c
                && reached_at(frontier[i], goal) == cost[c];
        if i < at {
            assert(rest[i] == frontier[i]);
        } else {
            assert(rest[i - 1] == frontier[i]);
        }
    }
}

/// A cell that gets a lower cost waits at that cost, and every other cell
/// stays as it was.
proof fn lemma_relaxed_settled(
    frontier: Seq<Node>,
    cost: Map<CellCoord, i32>,
    here: CellCoord,
    coord: CellCoord,
    new_cost: i32,
    node: Node,
    goal: Hex,
    world: Set<CellCoord>,
    collisions: Set<CellCoord>,
)
    requires
        settled(frontier, cost, Some(here), goal, world, collisions),
        node.cell.spec_coord() == coord,
        reached_at(node, goal) == new_cost,
        cost.contains_key(coord) ==> new_cost < cost[coord],
    ensures
        settled(
            frontier.push(node),
            cost.insert(coord, new_cost),
            Some(here),
            goal,
            world,
            collisions,
        ),
{
    reveal(settled);
    let longer = frontier.push(node);
    let lower = cost.insert(coord, new_cost);
    assert(longer[frontier.len() as int] == node);
    assert(fresh(longer, lower, coord, goal));
    assert forall|c: CellCoord| #[trigger]
        lower.contains_key(c) && Some(here) != Some(c) implies fresh(longer, lower, c, goal)
        || eased_around(lower, c, world, collisions) by {
        if c != coord {
            if fresh(frontier, cost, c, goal) {
                let i = choose|i: int|
                    0 <= i < frontier.len() && (#[trigger] frontier[i]).cell.spec_coord() == c
                        && reached_at(frontier[i], goal) == cost[c];
                assert(longer[i] == frontier[i]);
            } else {
                assert(eased_around(cost, c, world, collisions));
                assert forall|d: int| 0 <= d < 6 implies eased(
                    lower,
                    c,
                    #[trigger] c@.neighbor(d),
                    world,
                    collisions,
                ) by {
                    assert(eased(cost, c, c@.neighbor(d), world, collisions));
                }
            }
        }
    }
    if lower.contains_key(goal.spec_coord()) && here != goal.spec_coord() && coord
        != goal.spec_coord() {
        let i = choose|i: int|
            0 <= i < frontier.len() && (#[trigger] frontier[i]).cell.spec_coord()
                == goal.spec_coord() && reached_at(frontier[i], goal) == cost[goal.spec_coord()];
        assert(longer[i] == frontier[i]);
    }
}

/// The end of a way is a way.
proof fn lemma_path_end(
    path: Seq<Hex>,
    from: Hex,
    to: Hex,
    world: Set<CellCoord>,
    collisions: Set<CellCoord>,
    i: int,
)
    requires
        is_path(path, from, to, world, collisions),
        0 <= i < path.len(),
    ensures
        is_path(path.skip(i), path[i], to, world, collisions),
        path[i]@.distance(to@) <= path.len() - 1 - i,
{
    let rest = path.skip(i);
    assert forall|k: int| 0 <= k < rest.len() implies (#[trigger] rest[k]).wf() by {
        assert(rest[k] == path[k + i]);
    }
    assert forall|k: int| 0 < k < rest.len() implies rest[k - 1]@.adjacent(
        (#[trigger] rest[k])@,
    ) && passable(rest[k].spec_coord(), world, collisions) by {
        assert(rest[k] == path[k + i]);
        assert(rest[k - 1] == path[k + i - 1]);
    }
    assert(rest[0] == path[i]);
    lemma_path_length(rest, path[i], to, world, collisions);
}

/// A cell that waits at its cost waits under that cost plus its steps to the goal.
proof fn lemma_fresh_priority(
    frontier: Seq<Node>,
    cost: Map<CellCoord, i32>,
    cell: Hex,
    goal: Hex,
)
    requires
        cell.wf(),
        goal.wf(),
        fresh(frontier, cost, cell.spec_coord(), goal),
    ensures
        exists|k: int|
            0 <= k < frontier.len() && (#[trigger] frontier[k]).priority == cost[cell.spec_coord()]
                + cell@.distance(goal@),
{
    let c = cell.spec_coord();
    let k = choose|k: int|
        0 <= k < frontier.len() && (#[trigger] frontier[k]).cell.spec_coord() == c && reached_at(
            frontier[k],
            goal,
        ) == cost[c];
    assert(frontier[k].cell@ == cell@);
    lemma_heuristic(cell@, goal@);
    assert(frontier[k].priority == cost[c] + cell@.distance(goal@));
}

/// Where the neighbours of a cell have been costed from it, the next cell of
/// a way is costed at no more than one step beyond it.
proof fn lemma_eased_next(
    cost: Map<CellCoord, i32>,
    cell: Hex,
    next: Hex,
    world: Set<CellCoord>,
    collisions: Set<CellCoord>,
)
    requires
        next.wf(),
        cell@.adjacent(next@),
        passable(next.spec_coord(), world, collisions),
        eased_around(cost, cell.spec_coord(), world, collisions),
    ensures
        cost.contains_key(next.spec_coord()),
        cost[next.spec_coord()] <= cost[cell.spec_coord()] + 1,
{
    let c = cell.spec_coord();
    let d = choose|d: int| 0 <= d < 6 && next@ == #[trigger] cell@.neighbor(d);
    assert(c@ == cell@);
    assert(coord_at(c@.neighbor(d)) == next.spec_coord());
    assert(eased(cost, c, c@.neighbor(d), world, collisions));
}

/// While a way `q` to the goal exists, some node waits under a priority of
/// no more than the steps of `q`.
proof fn lemma_lead(
    frontier: Seq<Node>,
    cost: Map<CellCoord, i32>,
    start: Hex,
    goal: Hex,
    world: Set<CellCoord>,
    collisions: Set<CellCoord>,
    q: Seq<Hex>,
    i: int,
)
    requires
        goal.wf(),
        settled(frontier, cost, None, goal, world, collisions),
        is_path(q, start, goal, world, collisions),
        0 <= i < q.len(),
        cost.contains_key(q[i].spec_coord()),
        cost[q[i].spec_coord()] <= i,
    ensures
        exists|k: int|
            0 <= k < frontier.len() && (#[trigger] frontier[k]).priority <= q.len() - 1,
    decreases q.len() - i,
{
    let c = q[i].spec_coord();
    lemma_path_end(q, start, goal, world, collisions, i);
    assert(q[i].wf());
    let waits = fresh(frontier, cost, c, goal);
    let around = eased_around(cost, c, world, collisions);
    assert(waits || around) by {
        reveal(settled);
    }
    if i == q.len() - 1 {
        assert(q[i] == goal);
        assert(waits) by {
            reveal(settled);
        }
    }
    if waits {
        lemma_fresh_priority(frontier, cost, q[i], goal);
    } else {
        assert(q[i + 1].wf());
        assert(q[i]@.adjacent(q[i + 1]@) && passable(q[i + 1].spec_coord(), world, collisions));
        lemma_eased_next(cost, q[i], q[i + 1], world, collisions);
        lemma_lead(frontier, cost, start, goal, world, collisions, q, i + 1);
    }
}

/// The goal is taken at a cost of no more than the steps of any way to it.
proof fn lemma_found_bound(
    before: Search,
    at: int,
    start: Hex,
    goal: Hex,
    world: Set<CellCoord>,
    collisions: Set<CellCoord>,
    q: Seq<Hex>,
)
    requires
        before.inv(None, start, goal, world, collisions),
        0 <= at < before.frontier@.len(),
        forall|j: int|
            0 <= j < before.frontier@.len() ==> before.frontier@[at].priority <= (
            #[trigger] before.frontier@[j]).priority,
        before.frontier@[at].cell.spec_coord() == goal.spec_coord(),
        is_path(q, start, goal, world, collisions),
    ensures
        before.cost_so_far@[goal.spec_coord()] <= q.len() - 1,
{
    reveal(costs_ok);
    reveal(nodes_ok);
    assert(q[0] == start);
    lemma_lead(before.frontier@, before.cost_so_far@, start, goal, world, collisions, q, 0);
    let k = choose|k: int|
        0 <= k < before.frontier@.len() && (#[trigger] before.frontier@[k]).priority <= q.len() - 1;
    let taken = before.frontier@[at];
    assert(node_ok(taken, before.cost_so_far@, goal));
    assert(taken.cell@ == goal@);
    lemma_heuristic(goal@, goal@);
    lemma_distance_symmetry(goal@, goal@);
}

/// The cell from which a costed cell was reached is costed at less, and is a
/// neighbour from which the cell can be entered.
proof fn lemma_parent(
    search: Search,
    current: Option<CellCoord>,
    start: Hex,
    goal: Hex,
    world: Set<CellCoord>,
    collisions: Set<CellCoord>,
    cell: Hex,
)
    requires
        search.inv(current, start, goal, world, collisions),
        search.cost_so_far@.contains_key(cell.spec_coord()),
        cell.spec_coord() != start.spec_coord(),
    ensures
        search.came_from@.contains_key(cell.spec_coord()),
        search.came_from@[cell.spec_coord()].wf(),
        search.cost_so_far@.contains_key(search.came_from@[cell.spec_coord()].spec_coord()),
        0 <= search.cost_so_far@[search.came_from@[cell.spec_coord()].spec_coord()]
            < search.cost_so_far@[cell.spec_coord()],
        search.came_from@[cell.spec_coord()]@.adjacent(cell@),
        passable(cell.spec_coord(), world, collisions),
{
    reveal(costs_ok);
    let c = cell.spec_coord();
    let cost = search.cost_so_far@;
    assert(cell_ok(c, cost, search.came_from@, search.order@.len(), start, world, collisions));
    let parent = search.came_from@[c];
    assert(cell_ok(
        parent.spec_coord(),
        cost,
        search.came_from@,
        search.order@.len(),
        start,
        world,
        collisions,
    ));
}

/// The costed cells are as many as the search counts, and each can be reached.
proof fn lemma_costed(
    search: Search,
    start: Hex,
    goal: Hex,
    world: Set<CellCoord>,
    collisions: Set<CellCoord>,
)
    requires
        search.inv(None, start, goal, world, collisions),
    ensures
        search.cost_so_far@.dom().finite(),
        search.cost_so_far@.dom().len() == search.order@.len(),
        search.cost_so_far@.dom().len() > SEARCH_LIMIT ==> crowded(start, world, collisions),
        search.fuel() >= search.frontier@.len(),
{
    reveal(costs_ok);
    let cost = search.cost_so_far@;
    let cells = cost.dom();
    search.order@.unique_seq_to_set();
    vstd::seq_lib::seq_to_set_is_finite(search.order@);
    assert(search.order@.to_set() =~= cells);
    assert forall|c: CellCoord| cells.contains(c) implies #[trigger] reachable(
        start,
        c.cell(),
        world,
        collisions,
    ) by {
        assert(cost.contains_key(c));
        assert(cell_ok(c, cost, search.came_from@, search.order@.len(), start, world, collisions));
    }
    assert forall|c: CellCoord| #[trigger] search.order@.contains(c) implies cost[c] >= 0 by {
        assert(cost.contains_key(c));
        assert(cell_ok(c, cost, search.came_from@, search.order@.len(), start, world, collisions));
    }
    lemma_cost_sum_nonneg(search.order@, cost);
    assert((costed_bound() - search.order@.len()) * costed_bound() >= 0) by (nonlinear_arith)
        requires
            costed_bound() - search.order@.len() >= 0,
            costed_bound() >= 0,
    ;
}

/// Once a node has been taken out of the frontier, the search stands as it
/// stood, with the cell of that node to be expanded.
proof fn lemma_taken(
    before: Search,
    after: Search,
    at: int,
    start: Hex,
    goal: Hex,
    world: Set<CellCoord>,
    collisions: Set<CellCoord>,
)
    requires
        before.inv(None, start, goal, world, collisions),
        0 <= at < before.frontier@.len(),
        after.frontier@ == before.frontier@.remove(at),
        after.came_from == before.came_from,
        after.cost_so_far == before.cost_so_far,
        after.order == before.order,
        after.expanded == before.expanded,
        after.pops == before.pops,
        after.mark@ == after.frontier@.len(),
        forall|j: int|
            0 <= j < before.frontier@.len() ==> before.frontier@[at].priority <= (
            #[trigger] before.frontier@[j]).priority,
        forall|j: int|
            at < j < before.frontier@.len() ==> before.frontier@[at].priority < (
            #[trigger] before.frontier@[j]).priority,
    ensures
        after.inv(Some(before.frontier@[at].cell.spec_coord()), start, goal, world, collisions),
        before.frontier@[at].cell.wf(),
        after.cost_so_far@.contains_key(before.frontier@[at].cell.spec_coord()),
        after.fuel() == before.fuel() - 1,
        clear_between(start, goal, world, collisions) ==> after.order@.len() <= 1 + 6 * after.pops@,
{
    reveal(nodes_ok);
    reveal(accounted);
    let here = before.frontier@[at].cell.spec_coord();
    let cost = before.cost_so_far@;
    lemma_taken_settled(before.frontier@, cost, at, goal, world, collisions);
    assert(node_ok(before.frontier@[at], cost, goal));
    assert forall|i: int| 0 <= i < after.frontier@.len() implies node_ok(
        #[trigger] after.frontier@[i],
        cost,
        goal,
    ) by {
        if i < at {
            assert(after.frontier@[i] == before.frontier@[i]);
        } else {
            assert(after.frontier@[i] == before.frontier@[i + 1]);
        }
    }
    assert forall|c: CellCoord| #[trigger] cost.contains_key(c) implies after.expanded@.contains(
        c,
    ) || waiting(after.frontier@, c) || Some(here) == Some(c) by {
        if waiting(before.frontier@, c) && c != here {
            let i = choose|i: int|
                0 <= i < before.frontier@.len() && (#[trigger] before.frontier@[i]).cell.spec_coord()
                    == c;
            if i < at {
                assert(after.frontier@[i] == before.frontier@[i]);
            } else {
                assert(after.frontier@[i - 1] == before.frontier@[i]);
            }
            assert(waiting(after.frontier@, c));
        }
    }
    if clear_between(start, goal, world, collisions) {
        lemma_taken_on_track(before, after, at, start, goal, world, collisions);
    }
}

/// Where the way to the goal is clear, the node that is taken lies on a
/// shortest way to the goal, as many steps along it as cells were expanded.
proof fn lemma_taken_on_track(
    before: Search,
    after: Search,
    at: int,
    start: Hex,
    goal: Hex,
    world: Set<CellCoord>,
    collisions: Set<CellCoord>,
)
    requires
        before.inv(None, start, goal, world, collisions),
        clear_between(start, goal, world, collisions),
        0 <= at < before.frontier@.len(),
        after.frontier@ == before.frontier@.remove(at),
        after.cost_so_far == before.cost_so_far,
        after.pops == before.pops,
        after.mark@ == after.frontier@.len(),
        forall|j: int|
            0 <= j < before.frontier@.len() ==> before.frontier@[at].priority <= (
            #[trigger] before.frontier@[j]).priority,
        forall|j: int|
            at < j < before.frontier@.len() ==> before.frontier@[at].priority < (
            #[trigger] before.frontier@[j]).priority,
    ensures
        on_track(
            after.frontier@,
            after.cost_so_far@,
            after.pops@,
            after.mark@,
            Some(before.frontier@[at].cell.spec_coord()),
            start,
            goal,
        ),
{
    reveal(on_track);
    reveal(nodes_ok);
    let cost = before.cost_so_far@;
    let pops = before.pops@;
    let taken = before.frontier@[at];
    let here = taken.cell.spec_coord();
    let lead = choose|i: int|
        before.mark@ <= i < before.frontier@.len() && on_course(
            #[trigger] before.frontier@[i],
            pops,
            start,
            goal,
        );
    assert(node_ok(before.frontier@[lead], cost, goal));
    assert(node_ok(taken, cost, goal));
    lemma_heuristic(before.frontier@[lead].cell@, goal@);
    lemma_heuristic(taken.cell@, goal@);
    lemma_cost_floor(before, None, start, goal, world, collisions, taken.cell);
    assert(here@ == taken.cell@);
    lemma_distance_triangle(start@, taken.cell@, goal@);
    assert(before.frontier@[lead].priority == start@.distance(goal@));
    assert(taken.priority <= before.frontier@[lead].priority);
    assert(taken.priority >= start@.distance(goal@));
    assert(at >= lead);
    assert(reached_at(taken, goal) == pops);
    assert(taken.cell@.distance(goal@) == start@.distance(goal@) - pops);
}

/// No cell is costed at less than the number of steps it lies from the start.
proof fn lemma_cost_floor(
    search: Search,
    current: Option<CellCoord>,
    start: Hex,
    goal: Hex,
    world: Set<CellCoord>,
    collisions: Set<CellCoord>,
    cell: Hex,
)
    requires
        search.inv(current, start, goal, world, collisions),
        search.cost_so_far@.contains_key(cell.spec_coord()),
    ensures
        search.cost_so_far@[cell.spec_coord()] >= start@.distance(cell@),
        cell@.valid(),
{
    reveal(costs_ok);
    assert(cell_ok(
        cell.spec_coord(),
        search.cost_so_far@,
        search.came_from@,
        search.order@.len(),
        start,
        world,
        collisions,
    ));
}

/// Where the way to the goal is clear, some node waits, and no more cells
/// have been expanded than the goal lies steps from the start.
proof fn lemma_pops(
    search: Search,
    start: Hex,
    goal: Hex,
    world: Set<CellCoord>,
    collisions: Set<CellCoord>,
)
    requires
        search.inv(None, start, goal, world, collisions),
    ensures
        clear_between(start, goal, world, collisions) ==> search.frontier@.len() > 0
            && search.order@.len() <= 1 + 6 * start@.distance(goal@),
{
    reveal(on_track);
}

/// Where the way to the goal is clear, the goal is taken at a cost of as many
/// steps as it lies from the start.
proof fn lemma_goal_cost(
    search: Search,
    start: Hex,
    goal: Hex,
    world: Set<CellCoord>,
    collisions: Set<CellCoord>,
)
    requires
        search.inv(Some(goal.spec_coord()), start, goal, world, collisions),
        clear_between(start, goal, world, collisions),
    ensures
        search.cost_so_far@[goal.spec_coord()] == start@.distance(goal@),
{
    reveal(on_track);
    lemma_distance_symmetry(goal@, goal@);
}

/// Where nothing waits any more, every cell of a path from the start has been expanded.
proof fn lemma_exhausted(
    search: Search,
    start: Hex,
    goal: Hex,
    world: Set<CellCoord>,
    collisions: Set<CellCoord>,
    path: Seq<Hex>,
    to: Hex,
    i: int,
)
    requires
        search.inv(None, start, goal, world, collisions),
        search.frontier@.len() == 0,
        is_path(path, start, to, world, collisions),
        0 <= i < path.len(),
    ensures
        search.expanded@.contains(path[i].spec_coord()),
        search.cost_so_far@.contains_key(path[i].spec_coord()),
        path[i].spec_coord() != goal.spec_coord(),
    decreases i,
{
    reveal(costs_ok);
    reveal(accounted);
    reveal(closed_ok);
    let c = path[i].spec_coord();
    let cost = search.cost_so_far@;
    if i > 0 {
        let before = path[i - 1].spec_coord();
        lemma_exhausted(search, start, goal, world, collisions, path, to, i - 1);
        assert(closed_at(cost, before, world, collisions));
        assert(path[i - 1]@.adjacent(path[i]@));
        let d = choose|d: int| 0 <= d < 6 && path[i]@ == #[trigger] path[i - 1]@.neighbor(d);
        assert(covered(cost, before@.neighbor(d), world, collisions));
        assert(coord_at(path[i]@) == c);
        assert(path[i].wf());
    }
    assert(cost.contains_key(c));
}

/// The shortest way from `start` to `end` through the cells of `base_map` on
/// which nothing of `collisions` stands.
fn a_star_search(start: &Hex, end: &Hex, base_map: &CoordSet, collisions: &CoordSet) -> (found:
    Option<Vec<Hex>>)
    requires
        start.wf(),
        end.wf(),
    ensures
        match found {
            Some(path) => is_path(path@, *start, *end, base_map@, collisions@)
                && path@.no_duplicates() && (clear_between(*start, *end, base_map@, collisions@)
                ==> path@.len() == start@.distance(end@) + 1) && (forall|q: Seq<Hex>| #[trigger]
                is_path(q, *start, *end, base_map@, collisions@) ==> path@.len() <= q.len()),
            None => collisions@.contains(end.spec_coord()) || !reachable(
                *start,
                *end,
                base_map@,
                collisions@,
            ) || crowded(*start, base_map@, collisions@),
        },
        collisions@.contains(end.spec_coord()) ==> found is None,
        !collisions@.contains(end.spec_coord()) && clear_between(
            *start,
            *end,
            base_map@,
            collisions@,
        ) && 6 * start@.distance(end@) + 1 <= SEARCH_LIMIT ==> found is Some,
        cells_of(found) == spec_shortest_path(*start, *end, base_map@, collisions@),
{
    if collisions.contains(&end.coord()) {
        return None;
    }
    let mut search = Search::new(start, end, Ghost(base_map@), Ghost(collisions@));
    let ghost mut left: nat = search_fuel();
    while search.frontier.len() > 0
        invariant
            start.wf(),
            end.wf(),
            search.inv(None, *start, *end, base_map@, collisions@),
            search.order@.len() <= SEARCH_LIMIT + 6,
            left >= search.fuel() + 1,
            !collisions@.contains(end.spec_coord()),
            searched(search.progress(), *start, *end, base_map@, collisions@, left)
                == spec_shortest_path(*start, *end, base_map@, collisions@),
        decreases search.fuel(),
    {
        proof {
            lemma_costed(search, *start, *end, base_map@, collisions@);
            lemma_pops(search, *start, *end, base_map@, collisions@);
        }
        if search.cost_so_far.len() > SEARCH_LIMIT {
            return None;
        }
        let ghost before = search;
        let taken = take_min(&mut search.frontier);
        let current = taken.1;
        let ghost here = current.cell.spec_coord();
        proof {
            search.mark@ = search.frontier@.len() as int;
            lemma_taken(before, search, taken.0 as int, *start, *end, base_map@, collisions@);
            assert(search.progress() == (Progress {
                frontier: before.progress().frontier.remove(taken.0 as int),
                cost: before.progress().cost,
                came_from: before.progress().came_from,
            }));
        }
        if current.cell.coord() == end.coord() {
            let path = search.path_to(
                start,
                end,
                Ghost(Some(here)),
                Ghost(base_map@),
                Ghost(collisions@),
            );
            proof {
                lemma_path_length(path@, *start, *end, base_map@, collisions@);
                if clear_between(*start, *end, base_map@, collisions@) {
                    lemma_goal_cost(search, *start, *end, base_map@, collisions@);
                }
                assert forall|q: Seq<Hex>| #[trigger]
                    is_path(q, *start, *end, base_map@, collisions@) implies path@.len()
                    <= q.len() by {
                    lemma_found_bound(
                        before,
                        taken.0 as int,
                        *start,
                        *end,
                        base_map@,
                        collisions@,
                        q,
                    );
                }
            }
            return Some(path);
        }
        search.expand(&current.cell, end, base_map, collisions, Ghost(*start));
        proof {
            lemma_costed(search, *start, *end, base_map@, collisions@);
            left = (left - 1) as nat;
        }
    }
    proof {
        lemma_pops(search, *start, *end, base_map@, collisions@);
        if reachable(*start, *end, base_map@, collisions@) {
            let path = choose|path: Seq<Hex>|
                is_path(path, *start, *end, base_map@, collisions@);
            lemma_exhausted(
                search,
                *start,
                *end,
                base_map@,
                collisions@,
                path,
                *end,
                path.len() - 1,
            );
        }
    }
    None
}

/// A shortest way from `from` to `to`, both included, through the cells of
/// `world` on which nothing of `collisions` stands. `None` where something
/// stands on `to`, where there is no way, or where the search has given up
/// because more than `SEARCH_LIMIT` cells had a cost. `from` itself need not
/// be passable.
///
/// The way found is the one that `spec_shortest_path` gives. No way between
/// the two has fewer cells, and no cell occurs twice in it.
///
/// Cells are expanded in the order of their cost so far plus the estimate of
/// what is left, which is the number of steps to `to`. Of cells that are
/// equal in that, the one that came to wait last is expanded first;
/// neighbours are looked at in the order of the six directions.
pub fn shortest_path(from: &Hex, to: &Hex, world: &CoordSet, collisions: &CoordSet) -> (found:
    Option<Vec<Hex>>)
    requires
        from.wf(),
        to.wf(),
    ensures
        match found {
            Some(path) => {
                &&& is_path(path@, *from, *to, world@, collisions@)
                &&& path@.no_duplicates()
                &&& path@.len() >= from@.distance(to@) + 1
                &&& clear_between(*from, *to, world@, collisions@) ==> path@.len()
                    == from@.distance(to@) + 1
                &&& forall|q: Seq<Hex>| #[trigger]
                    is_path(q, *from, *to, world@, collisions@) ==> path@.len() <= q.len()
            },
            None => collisions@.contains(to.spec_coord()) || !reachable(
                *from,
                *to,
                world@,
                collisions@,
            ) || crowded(*from, world@, collisions@),
        },
        collisions@.contains(to.spec_coord()) ==> found is None,
        *from != *to && !world@.contains(to.spec_coord()) ==> found is None,
        !collisions@.contains(to.spec_coord()) && clear_between(*from, *to, world@, collisions@)
            && 6 * from@.distance(to@) + 1 <= SEARCH_LIMIT ==> found is Some,
        cells_of(found) == spec_shortest_path(*from, *to, world@, collisions@),
{
    let found = a_star_search(from, to, world, collisions);
    proof {
        if found is Some {
            let path = found->0@;
            lemma_path_length(path, *from, *to, world@, collisions@);
            if *from != *to {
                assert(passable(path[path.len() - 1].spec_coord(), world@, collisions@));
            }
        }
    }
    found
}

} // verus!
