use hex_factory::engine::cell::CellCoord;
use hex_factory::engine::coords::{CoordMap, CoordSet};

#[test]
fn set_holds_what_was_inserted() {
    let mut set = CoordSet::new();
    assert_eq!(set.len(), 0);
    assert!(set.insert(CellCoord::new(1, -1, 0)));
    assert!(set.insert(CellCoord::new(-1, 1, 0)));
    assert!(!set.insert(CellCoord::new(1, -1, 0)));
    assert_eq!(set.len(), 2);
    assert!(set.contains(&CellCoord::new(1, -1, 0)));
    assert!(set.contains(&CellCoord::new(-1, 1, 0)));
    assert!(!set.contains(&CellCoord::new(-1, 0, 1)));
    assert!(set.remove(&CellCoord::new(1, -1, 0)));
    assert!(!set.remove(&CellCoord::new(1, -1, 0)));
    assert!(!set.contains(&CellCoord::new(1, -1, 0)));
    assert_eq!(set.len(), 1);
}

#[test]
fn set_tells_apart_cells_that_differ_in_one_coordinate() {
    let mut set = CoordSet::new();
    let cells = [
        CellCoord::new(0, 0, 0),
        CellCoord::new(1, 0, 0),
        CellCoord::new(0, 1, 0),
        CellCoord::new(0, 0, 1),
        CellCoord::new(-1, 0, 0),
        CellCoord::new(0, -1, 0),
        CellCoord::new(0, 0, -1),
        CellCoord::new(i32::MAX, i32::MIN, 0),
        CellCoord::new(i32::MIN, i32::MAX, 0),
        CellCoord::new(i32::MIN, i32::MIN, i32::MIN),
        CellCoord::new(i32::MAX, i32::MAX, i32::MAX),
        CellCoord::new(0, i32::MAX, i32::MIN),
    ];
    for (i, c) in cells.iter().enumerate() {
        assert!(!set.contains(c));
        assert!(set.insert(*c));
        assert_eq!(set.len(), i + 1);
    }
    for c in cells.iter() {
        assert!(set.contains(c));
    }
    let mut listed = set.cells();
    listed.sort();
    let mut expected = cells.to_vec();
    expected.sort();
    assert_eq!(listed, expected);
}

#[test]
fn map_gives_back_the_value_of_each_cell() {
    let mut map: CoordMap<u32> = CoordMap::new();
    assert_eq!(map.len(), 0);
    assert_eq!(map.insert(CellCoord::new(2, -3, 1), 7), None);
    assert_eq!(map.insert(CellCoord::new(-2, 3, -1), 8), None);
    assert_eq!(map.insert(CellCoord::new(2, -3, 1), 9), Some(7));
    assert_eq!(map.len(), 2);
    assert_eq!(map.get(&CellCoord::new(2, -3, 1)), Some(&9));
    assert_eq!(map.get(&CellCoord::new(-2, 3, -1)), Some(&8));
    assert_eq!(map.get(&CellCoord::new(3, -2, -1)), None);
    assert!(map.contains_key(&CellCoord::new(-2, 3, -1)));
    assert!(!map.contains_key(&CellCoord::new(1, -3, 2)));
    assert_eq!(map.remove(&CellCoord::new(2, -3, 1)), Some(9));
    assert_eq!(map.remove(&CellCoord::new(2, -3, 1)), None);
    assert_eq!(map.len(), 1);
    assert_eq!(map.keys(), vec![CellCoord::new(-2, 3, -1)]);
}

#[test]
fn copy_of_a_map_holds_the_same_values() {
    let mut map: CoordMap<u32> = CoordMap::new();
    map.insert(CellCoord::new(0, 1, -1), 4);
    let mut copy = map.clone();
    assert_eq!(copy.get(&CellCoord::new(0, 1, -1)), Some(&4));
    copy.insert(CellCoord::new(0, 1, -1), 5);
    assert_eq!(map.get(&CellCoord::new(0, 1, -1)), Some(&4));
}
