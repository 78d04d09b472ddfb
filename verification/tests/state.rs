use hex_factory::engine::cell::CellCoord;
use hex_factory::engine::coords::{CoordMap, CoordSet};
use hex_factory::game::view::belt::{Belt, Material};
use hex_factory::game::view::building::{BuildingState, BuildingView};
use hex_factory::game::view::snapshot::{BeltView, GameStateView};
use hex_factory::game::view::world::{GameState, UserAction};

fn belt_on(id: u32, cells: &[(CellCoord, Option<Material>)]) -> Belt {
    let mut contents = CoordMap::new();
    for (coord, material) in cells {
        contents.insert(*coord, *material);
    }
    Belt::new(id, contents)
}

#[test]
fn belt_carries_what_it_was_given() {
    let a = CellCoord::new(0, 0, 0);
    let b = CellCoord::new(1, 0, -1);
    let belt = belt_on(7, &[(a, Some(Material::Mat3)), (b, None)]);
    assert_eq!(belt.id, 7);
    assert_eq!(belt.material_at(&a), Some(Material::Mat3));
    assert_eq!(belt.material_at(&b), None);
    assert_eq!(belt.material_at(&CellCoord::new(2, 0, -2)), None);
}

#[test]
fn building_state_has_its_name() {
    assert_eq!(BuildingState::Disconnected.name(), "Disconnected");
    assert_eq!(BuildingState::Transferring.name(), "Transferring");
    assert_eq!(BuildingState::Starved.name(), "Starved");
    assert_eq!(BuildingState::Working.name(), "Working");
    assert_eq!(BuildingState::Blocked.name(), "Blocked");
    assert_eq!(BuildingState::Disabled.name(), "Disabled");
}

#[test]
fn building_connects_and_disconnects_its_nodes() {
    let node = CellCoord::new(1, 1, -2);
    let other = CellCoord::new(0, 1, -1);
    let mut nodes = CoordMap::new();
    nodes.insert(node, false);
    let mut building = BuildingView::new(CellCoord::new(-4, -2, 6), nodes, BuildingState::Working);
    assert_eq!(building.coord, CellCoord::new(-4, -2, 6));
    assert_eq!(building.state, BuildingState::Working);
    assert!(building.is_connected(&node));
    assert!(!building.is_connected(&other));
    assert_eq!(building.nodes.get(&node), Some(&false));

    building.connect(&node);
    assert_eq!(building.nodes.get(&node), Some(&true));
    building.connect(&other);
    assert_eq!(building.nodes.get(&other), None);
    assert!(!building.is_connected(&other));

    building.disconnect(&node);
    assert_eq!(building.nodes.get(&node), Some(&false));
    building.disconnect(&other);
    assert_eq!(building.nodes.len(), 1);
}

#[test]
fn new_state_holds_the_world_and_nothing_else() {
    let mut world = CoordSet::new();
    world.insert(CellCoord::new(0, 0, 0));
    let state = GameState::new(world);
    assert!(state.world.contains(&CellCoord::new(0, 0, 0)));
    assert_eq!(state.buildings.len(), 0);
    assert_eq!(state.belts.len(), 0);
    assert!(state.current_action.is_none());
    assert_eq!(state.collisions().len(), 0);
}

#[test]
fn buildings_are_found_where_they_stand() {
    let mut state = GameState::new(CoordSet::new());
    let at = CellCoord::new(-1, -1, 2);
    state.add_building(BuildingView::new(at, CoordMap::new(), BuildingState::Disconnected));
    assert_eq!(state.building_at(&at).map(|b| b.coord), Some(at));
    assert_eq!(state.building_at(&at).map(|b| b.state), Some(BuildingState::Disconnected));
    assert!(state.building_at(&CellCoord::new(0, 0, 0)).is_none());
    assert!(state.collisions().contains(&at));

    state.add_building(BuildingView::new(at, CoordMap::new(), BuildingState::Working));
    assert_eq!(state.building_at(&at).map(|b| b.state), Some(BuildingState::Working));
    assert_eq!(state.buildings.len(), 1);

    state.remove_building(&at);
    assert!(state.building_at(&at).is_none());
    assert!(!state.collisions().contains(&at));
}

#[test]
fn belts_are_found_on_each_cell_they_lie_on() {
    let a = CellCoord::new(-2, -1, 3);
    let b = CellCoord::new(-1, -1, 2);
    let c = CellCoord::new(0, -1, 1);
    let mut state = GameState::new(CoordSet::new());
    state.add_belt(belt_on(1, &[(a, None), (b, Some(Material::Mat1))]));
    state.add_belt(belt_on(2, &[(b, None), (c, Some(Material::Mat2))]));

    let ids = |state: &GameState, at: &CellCoord| -> Option<Vec<u32>> {
        state.belts_at(at).map(|list| list.iter().map(|belt| belt.id).collect())
    };
    assert_eq!(ids(&state, &a), Some(vec![1]));
    assert_eq!(ids(&state, &b), Some(vec![1, 2]));
    assert_eq!(ids(&state, &c), Some(vec![2]));
    assert_eq!(ids(&state, &CellCoord::new(1, -1, 0)), None);
    assert_eq!(
        state.belts_at(&b).map(|list| list[0].material_at(&b)),
        Some(Some(Material::Mat1))
    );

    let taken = state.collisions();
    assert_eq!(taken.len(), 3);
    assert!(taken.contains(&a) && taken.contains(&b) && taken.contains(&c));

    state.remove_belt(1);
    assert_eq!(ids(&state, &a), None);
    assert_eq!(ids(&state, &b), Some(vec![2]));
    assert_eq!(ids(&state, &c), Some(vec![2]));
    let taken = state.collisions();
    assert_eq!(taken.len(), 2);
    assert!(!taken.contains(&a) && taken.contains(&b) && taken.contains(&c));

    state.remove_belt(2);
    assert_eq!(ids(&state, &b), None);
    assert_eq!(state.collisions().len(), 0);
}

#[test]
fn cell_with_an_empty_list_of_belts_is_not_taken() {
    let at = CellCoord::new(3, -3, 0);
    let mut state = GameState::new(CoordSet::new());
    state.belts.insert(at, Vec::new());
    assert_eq!(state.belts_at(&at).map(|list| list.len()), Some(0));
    assert!(!state.collisions().contains(&at));
    state.add_belt(belt_on(4, &[(at, None)]));
    assert!(state.collisions().contains(&at));
}

#[test]
fn collisions_are_the_cells_of_buildings_and_belts() {
    let mut state = GameState::new(CoordSet::new());
    let shared = CellCoord::new(0, 0, 0);
    let only_belt = CellCoord::new(1, -1, 0);
    let only_building = CellCoord::new(2, -2, 0);
    state.add_building(BuildingView::new(shared, CoordMap::new(), BuildingState::Working));
    state.add_building(BuildingView::new(only_building, CoordMap::new(), BuildingState::Blocked));
    state.add_belt(belt_on(9, &[(shared, None), (only_belt, None)]));
    let taken = state.collisions();
    let mut cells = taken.cells();
    cells.sort();
    assert_eq!(cells, vec![shared, only_belt, only_building]);
}

#[test]
fn action_in_progress_is_kept() {
    let mut state = GameState::new(CoordSet::new());
    let begin = CellCoord::new(0, 0, 0);
    state.current_action =
        Some(UserAction::PlacingBelt { begin, end: Some(begin), previous_check: begin });
    state.add_building(BuildingView::new(begin, CoordMap::new(), BuildingState::Starved));
    match state.current_action {
        Some(UserAction::PlacingBelt { begin: b, end, previous_check }) => {
            assert_eq!(b, begin);
            assert_eq!(end, Some(begin));
            assert_eq!(previous_check, begin);
        }
        None => panic!("the action was lost"),
    }
}

fn shown_belt(cells: &[(CellCoord, Option<Material>)]) -> BeltView {
    let mut contents = CoordMap::new();
    for (coord, material) in cells {
        contents.insert(*coord, *material);
    }
    BeltView::new(contents)
}

#[test]
fn shown_belt_carries_what_it_was_given() {
    let a = CellCoord::new(0, 0, 0);
    let belt = shown_belt(&[(a, Some(Material::Mat5))]);
    assert_eq!(belt.material_at(&a), Some(Material::Mat5));
    assert_eq!(belt.material_at(&CellCoord::new(0, 1, -1)), None);
}

#[test]
fn view_lists_buildings_and_belts_by_cell() {
    let a = CellCoord::new(-4, -2, 6);
    let b = CellCoord::new(-1, -4, 5);
    let c = CellCoord::new(0, 2, -2);
    let d = CellCoord::new(1, 2, -3);

    let mut nodes = CoordMap::new();
    nodes.insert(CellCoord::new(1, 1, 1), false);
    let buildings = [
        BuildingView::new(a, nodes, BuildingState::Working),
        BuildingView::new(b, CoordMap::new(), BuildingState::Starved),
        BuildingView::new(a, CoordMap::new(), BuildingState::Blocked),
    ];
    let belts = [
        shown_belt(&[(c, Some(Material::Mat1)), (d, None)]),
        shown_belt(&[(b, None)]),
        shown_belt(&[(d, Some(Material::Mat2))]),
    ];
    let view = GameStateView::new(&buildings, &belts);

    assert_eq!(view.building_at(&a).map(|x| x.state), Some(BuildingState::Blocked));
    assert_eq!(view.building_at(&a).map(|x| x.nodes.len()), Some(0));
    assert_eq!(view.building_at(&b).map(|x| x.state), Some(BuildingState::Starved));
    assert!(view.building_at(&c).is_none());

    let carried = |at: &CellCoord| -> Option<Vec<Option<Material>>> {
        view.belts_at(at).map(|list| list.iter().map(|belt| belt.material_at(at)).collect())
    };
    assert_eq!(carried(&c), Some(vec![Some(Material::Mat1)]));
    assert_eq!(carried(&d), Some(vec![None, Some(Material::Mat2)]));
    assert_eq!(carried(&b), Some(vec![None]));
    assert_eq!(carried(&a), None);

    let mut taken = view.collision_set.cells();
    taken.sort();
    let mut expected = vec![a, b, c, d];
    expected.sort();
    assert_eq!(taken, expected);
}

#[test]
fn empty_view_takes_no_cell() {
    let view = GameStateView::new(&[], &[]);
    assert_eq!(view.collision_set.len(), 0);
    assert!(view.building_at(&CellCoord::new(0, 0, 0)).is_none());
    assert!(view.belts_at(&CellCoord::new(0, 0, 0)).is_none());
}
