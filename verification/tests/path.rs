use hex_factory::engine::cell::{CellCoord, Hex};
use hex_factory::engine::coords::CoordSet;
use hex_factory::engine::world::{generate_hexgon, shortest_path, SEARCH_LIMIT};

fn hexagon(radius: i32) -> CoordSet {
    generate_hexgon(radius)
}

#[test]
fn hexagon_holds_the_cells_within_its_radius() {
    assert_eq!(generate_hexgon(-1).len(), 0);
    let one = generate_hexgon(0);
    assert_eq!(one.cells(), vec![CellCoord::new(0, 0, 0)]);
    let seven = generate_hexgon(1);
    assert_eq!(seven.len(), 7);
    for cell in Hex::new(0, 0, 0).neighbors() {
        assert!(seven.contains(&cell.coord()));
    }
    let world = generate_hexgon(3);
    assert_eq!(world.len(), 37);
    assert!(world.contains(&CellCoord::new(3, -3, 0)));
    assert!(world.contains(&CellCoord::new(-1, -2, 3)));
    assert!(!world.contains(&CellCoord::new(4, -4, 0)));
    assert!(!world.contains(&CellCoord::new(2, 2, -4)));
    assert!(!world.contains(&CellCoord::new(1, 1, 1)));
    for cell in world.cells() {
        assert_eq!(cell.x + cell.y + cell.z, 0);
        assert!(Hex::new(cell.x, cell.y, cell.z).length() <= 3);
    }
}

fn patch() -> CoordSet {
    let mut world = CoordSet::new();
    for q in -1..=1 {
        for r in -1..=1 {
            world.insert(CellCoord::new(q, r, -q - r));
        }
    }
    world
}

fn assert_is_path(path: &[Hex], from: Hex, to: Hex, world: &CoordSet, collisions: &CoordSet) {
    assert_eq!(path[0], from);
    assert_eq!(path[path.len() - 1], to);
    for pair in path.windows(2) {
        assert_eq!(pair[0].distance(&pair[1]), 1);
        assert!(world.contains(&pair[1].coord()));
        assert!(!collisions.contains(&pair[1].coord()));
    }
}

#[test]
fn open_grid_gives_a_path_of_distance_plus_one_cells() {
    let world = hexagon(4);
    let none = CoordSet::new();
    let ends = [
        (Hex::new(0, 0, 0), Hex::new(3, -3, 0)),
        (Hex::new(-4, 0, 4), Hex::new(4, 0, -4)),
        (Hex::new(-2, 4, -2), Hex::new(1, -4, 3)),
        (Hex::new(2, 1, -3), Hex::new(2, 2, -4)),
    ];
    for (from, to) in ends {
        let path = shortest_path(&from, &to, &world, &none).expect("a path");
        assert_eq!(path.len() as i32, from.distance(&to) + 1);
        assert_is_path(&path, from, to, &world, &none);
    }
}

#[test]
fn path_from_a_cell_to_itself_is_that_cell() {
    let world = hexagon(2);
    let none = CoordSet::new();
    let at = Hex::new(1, -1, 0);
    assert_eq!(shortest_path(&at, &at, &world, &none), Some(vec![at]));
}

#[test]
fn path_to_a_neighbour_has_two_cells() {
    let world = hexagon(2);
    let none = CoordSet::new();
    let from = Hex::new(0, 0, 0);
    let to = Hex::new(0, 1, -1);
    assert_eq!(shortest_path(&from, &to, &world, &none), Some(vec![from, to]));
}

#[test]
fn collided_goal_gives_no_path() {
    let world = hexagon(3);
    let mut collisions = CoordSet::new();
    collisions.insert(CellCoord::new(2, -1, -1));
    let from = Hex::new(0, 0, 0);
    let to = Hex::new(2, -1, -1);
    assert_eq!(shortest_path(&from, &to, &world, &collisions), None);
}

#[test]
fn goal_outside_the_world_gives_no_path() {
    let world = hexagon(2);
    let none = CoordSet::new();
    let from = Hex::new(0, 0, 0);
    let to = Hex::new(3, 0, -3);
    assert_eq!(shortest_path(&from, &to, &world, &none), None);
}

#[test]
fn walled_in_goal_gives_no_path() {
    let world = hexagon(4);
    let goal = Hex::new(2, 0, -2);
    let mut collisions = CoordSet::new();
    for cell in goal.neighbors() {
        collisions.insert(cell.coord());
    }
    let from = Hex::new(-3, 0, 3);
    assert_eq!(shortest_path(&from, &goal, &world, &collisions), None);
}

#[test]
fn center_collision_on_a_patch_of_nine_cells_costs_one_more_cell() {
    let world = patch();
    let from = Hex::new(-1, 1, 0);
    let to = Hex::new(1, -1, 0);

    let none = CoordSet::new();
    let straight = shortest_path(&from, &to, &world, &none).expect("a path");
    assert_eq!(straight, vec![from, Hex::new(0, 0, 0), to]);

    let mut collisions = CoordSet::new();
    collisions.insert(CellCoord::new(0, 0, 0));
    let around = shortest_path(&from, &to, &world, &collisions).expect("a path");
    assert_eq!(around.len(), straight.len() + 1);
    assert_is_path(&around, from, to, &world, &collisions);
    assert!(!around.contains(&Hex::new(0, 0, 0)));
}

#[test]
fn path_goes_round_a_wall() {
    let world = hexagon(4);
    let mut collisions = CoordSet::new();
    for r in -4..=2 {
        collisions.insert(CellCoord::new(0, r, -r));
    }
    let from = Hex::new(-2, 0, 2);
    let to = Hex::new(2, -2, 0);
    let path = shortest_path(&from, &to, &world, &collisions).expect("a path");
    assert_is_path(&path, from, to, &world, &collisions);
    assert!(path.len() as i32 > from.distance(&to) + 1);
    assert!(path.iter().any(|cell| cell.q == 0 && cell.r >= 3));
}

#[test]
fn start_need_not_be_passable() {
    let world = hexagon(2);
    let mut collisions = CoordSet::new();
    collisions.insert(CellCoord::new(0, 0, 0));
    let from = Hex::new(0, 0, 0);
    let to = Hex::new(2, -2, 0);
    let path = shortest_path(&from, &to, &world, &collisions).expect("a path");
    assert_eq!(path.len(), 3);
    assert_is_path(&path, from, to, &world, &collisions);
}

#[test]
fn search_gives_up_once_too_many_cells_are_costed() {
    let world = hexagon(30);
    let goal = Hex::new(25, 0, -25);
    let mut collisions = CoordSet::new();
    for cell in goal.neighbors() {
        collisions.insert(cell.coord());
    }
    assert!(world.len() > SEARCH_LIMIT);
    let from = Hex::new(0, 0, 0);
    assert_eq!(shortest_path(&from, &goal, &world, &collisions), None);
}

#[test]
fn far_goal_on_an_open_grid_is_found_within_the_limit() {
    let world = hexagon(60);
    let none = CoordSet::new();
    let from = Hex::new(-60, 0, 60);
    let to = Hex::new(60, -30, -30);
    let path = shortest_path(&from, &to, &world, &none).expect("a path");
    assert_eq!(path.len() as i32, from.distance(&to) + 1);
    assert_is_path(&path, from, to, &world, &none);
}

#[test]
fn cells_at_the_edge_of_the_coordinate_range_have_fewer_neighbours() {
    let corner = Hex::new(i32::MAX, -i32::MAX, 0);
    let next = Hex::new(i32::MAX, -i32::MAX + 1, -1);
    let mut world = CoordSet::new();
    world.insert(corner.coord());
    world.insert(next.coord());
    let none = CoordSet::new();
    assert_eq!(shortest_path(&corner, &next, &world, &none), Some(vec![corner, next]));
    let far = Hex::new(0, 0, 0);
    assert_eq!(shortest_path(&corner, &far, &world, &none), None);
}

#[test]
fn only_way_through_a_chain_of_cells_is_found() {
    let mut world = CoordSet::new();
    for (q, r, s) in [(0, 0, 0), (0, 1, -1), (1, 1, -2), (2, 0, -2)] {
        world.insert(CellCoord::new(q, r, s));
    }
    let none = CoordSet::new();
    let from = Hex::new(0, 0, 0);
    let to = Hex::new(2, 0, -2);
    assert_eq!(
        shortest_path(&from, &to, &world, &none),
        Some(vec![from, Hex::new(0, 1, -1), Hex::new(1, 1, -2), to])
    );
}

#[test]
fn way_round_the_collided_center_of_the_patch_has_four_cells() {
    let world = patch();
    let from = Hex::new(-1, 1, 0);
    let to = Hex::new(1, -1, 0);
    let mut collisions = CoordSet::new();
    collisions.insert(CellCoord::new(0, 0, 0));
    let around = shortest_path(&from, &to, &world, &collisions).expect("a path");
    assert_eq!(around, vec![from, Hex::new(-1, 0, 1), Hex::new(0, -1, 1), to]);
}

#[test]
fn no_cell_occurs_twice_in_a_way() {
    let world = hexagon(5);
    let mut collisions = CoordSet::new();
    for q in -3..=3 {
        collisions.insert(CellCoord::new(q, 1, -q - 1));
    }
    let from = Hex::new(0, 4, -4);
    let to = Hex::new(0, -3, 3);
    let path = shortest_path(&from, &to, &world, &collisions).expect("a path");
    assert_is_path(&path, from, to, &world, &collisions);
    for (i, cell) in path.iter().enumerate() {
        assert!(!path[i + 1..].contains(cell));
    }
}

#[test]
fn of_equal_priorities_the_one_that_came_last_is_taken_first() {
    // Both neighbours of the start on a shortest way wait under one priority;
    // the one in the later direction came to wait last and is taken first.
    let world = hexagon(2);
    let none = CoordSet::new();
    let from = Hex::new(0, 0, 0);
    let to = Hex::new(2, -1, -1);
    assert_eq!(
        shortest_path(&from, &to, &world, &none),
        Some(vec![from, Hex::new(1, -1, 0), to])
    );
}

#[test]
fn world_of_the_shortest_ways_alone_gives_a_shortest_way() {
    let from = Hex::new(-3, 1, 2);
    let to = Hex::new(2, -3, 1);
    let d = from.distance(&to);
    let mut world = CoordSet::new();
    for cell in hexagon(8).cells() {
        let c = Hex::new(cell.x, cell.y, cell.z);
        if from.distance(&c) + c.distance(&to) == d {
            world.insert(cell);
        }
    }
    let none = CoordSet::new();
    let path = shortest_path(&from, &to, &world, &none).expect("a path");
    assert_eq!(path.len() as i32, d + 1);
    assert_is_path(&path, from, to, &world, &none);
}

#[test]
fn shorter_of_two_routes_is_found() {
    let mut world = CoordSet::new();
    let cells = [
        (5, -1, -4),
        (4, 0, -4),
        (3, 0, -3),
        (2, 0, -2),
        (1, 1, -2),
        (0, 2, -2),
        (-1, 2, -1),
        (-1, 1, 0),
        (0, 0, 0),
        (5, -2, -3),
        (4, -2, -2),
        (3, -2, -1),
        (2, -2, 0),
        (1, -1, 0),
    ];
    for (q, r, s) in cells {
        world.insert(CellCoord::new(q, r, s));
    }
    let none = CoordSet::new();
    let from = Hex::new(5, -1, -4);
    let to = Hex::new(0, 0, 0);
    assert_eq!(
        shortest_path(&from, &to, &world, &none),
        Some(vec![
            from,
            Hex::new(5, -2, -3),
            Hex::new(4, -2, -2),
            Hex::new(3, -2, -1),
            Hex::new(2, -2, 0),
            Hex::new(1, -1, 0),
            to,
        ])
    );
}

#[test]
fn collided_goal_gives_no_path_even_from_itself() {
    let world = hexagon(2);
    let mut collisions = CoordSet::new();
    collisions.insert(CellCoord::new(1, -1, 0));
    let at = Hex::new(1, -1, 0);
    assert_eq!(shortest_path(&at, &at, &world, &collisions), None);
    let outside = Hex::new(5, -5, 0);
    assert_eq!(shortest_path(&outside, &outside, &world, &collisions), Some(vec![outside]));
}

#[test]
fn way_found_is_as_short_as_a_search_by_breadth() {
    let world = hexagon(6);
    let mut collisions = CoordSet::new();
    for (q, r) in [(0, -2), (0, -1), (0, 0), (0, 1), (1, 1), (2, 1), (2, 0), (-1, 3), (-2, 3), (3, -4)] {
        collisions.insert(CellCoord::new(q, r, -q - r));
    }
    let from = Hex::new(-3, 0, 3);
    for goal in world.cells() {
        let to = Hex::new(goal.x, goal.y, goal.z);
        // Steps to every cell, by breadth.
        let mut steps = std::collections::HashMap::new();
        steps.insert(from, 0usize);
        let mut queue = std::collections::VecDeque::new();
        queue.push_back(from);
        while let Some(cell) = queue.pop_front() {
            for next in cell.neighbors() {
                if world.contains(&next.coord())
                    && !collisions.contains(&next.coord())
                    && !steps.contains_key(&next)
                {
                    steps.insert(next, steps[&cell] + 1);
                    queue.push_back(next);
                }
            }
        }
        let found = shortest_path(&from, &to, &world, &collisions);
        if collisions.contains(&goal) {
            assert_eq!(found, None);
        } else {
            match steps.get(&to) {
                Some(n) => {
                    let path = found.expect("a path");
                    assert_eq!(path.len(), n + 1);
                    assert_is_path(&path, from, to, &world, &collisions);
                }
                None => assert_eq!(found, None),
            }
        }
    }
}
