//! Sets and maps of cells, kept in hash tables under a number made of the
//! three coordinates.

use crate::engine::cell::CellCoord;
use std::collections::HashMap;
use vstd::prelude::*;
use vstd::std_specs::iter::IteratorSpec;

verus! {

broadcast use vstd::std_specs::hash::group_hash_axioms;

/// The number under which a cell is stored: its three coordinates, each
/// shifted to be non-negative, side by side.
spec fn key_of(c: CellCoord) -> u128 {
    ((c.x - i32::MIN) * 0x1_0000_0000_0000_0000 + (c.y - i32::MIN) * 0x1_0000_0000 + (c.z
        - i32::MIN)) as u128
}

/// The cell that is stored under `k`.
spec fn cell_of(k: u128) -> CellCoord {
    CellCoord {
        x: ((k / 0x1_0000_0000_0000_0000) + i32::MIN) as i32,
        y: (((k / 0x1_0000_0000) % 0x1_0000_0000) + i32::MIN) as i32,
        z: ((k % 0x1_0000_0000) + i32::MIN) as i32,
    }
}

proof fn lemma_key_roundtrip(c: CellCoord)
    ensures
        cell_of(key_of(c)) == c,
{
}

proof fn lemma_key_injective(a: CellCoord, b: CellCoord)
    requires
        key_of(a) == key_of(b),
    ensures
        a == b,
{
    lemma_key_roundtrip(a);
    lemma_key_roundtrip(b);
}

/// The cells stored under the numbers `keys`, where each number stands for a cell.
proof fn lemma_cells_of_keys(keys: Set<u128>, cells: Set<CellCoord>)
    requires
        keys.finite(),
        forall|k: u128| keys.contains(k) ==> key_of(cell_of(k)) == k,
        forall|c: CellCoord| cells.contains(c) <==> keys.contains(key_of(c)),
    ensures
        cells.finite(),
        cells.len() == keys.len(),
{
    let f = |k: u128| cell_of(k);
    assert forall|c: CellCoord| cells.contains(c) implies keys.map(f).contains(c) by {
        lemma_key_roundtrip(c);
        assert(keys.contains(key_of(c)) && f(key_of(c)) == c);
    }
    assert(keys.map(f) =~= cells);
    assert(vstd::relations::injective_on(f, keys));
    vstd::set_lib::lemma_map_size(keys, cells, f);
}

fn key(c: &CellCoord) -> (k: u128)
    ensures
        k == key_of(*c),
{
    let x = (c.x as i64 - i32::MIN as i64) as u128;
    let y = (c.y as i64 - i32::MIN as i64) as u128;
    let z = (c.z as i64 - i32::MIN as i64) as u128;
    x * 0x1_0000_0000_0000_0000 + y * 0x1_0000_0000 + z
}

fn cell(k: u128) -> (c: CellCoord)
    requires
        key_of(cell_of(k)) == k,
    ensures
        c == cell_of(k),
{
    let x = (k / 0x1_0000_0000_0000_0000) as i64 + i32::MIN as i64;
    let y = ((k / 0x1_0000_0000) % 0x1_0000_0000) as i64 + i32::MIN as i64;
    let z = (k % 0x1_0000_0000) as i64 + i32::MIN as i64;
    CellCoord { x: x as i32, y: y as i32, z: z as i32 }
}

/// A map from cells to values.
#[derive(Debug)]
pub struct CoordMap<V> {
    entries: HashMap<u128, V>,
}

impl<V> View for CoordMap<V> {
    type V = Map<CellCoord, V>;

    closed spec fn view(&self) -> Map<CellCoord, V> {
        Map::new(
            |c: CellCoord| self.entries@.contains_key(key_of(c)),
            |c: CellCoord| self.entries@[key_of(c)],
        )
    }
}

impl<V> CoordMap<V> {
    /// Every number in the table stands for a cell. This holds of a map that
    /// was made by `new` and changed by the methods below, and `len` needs it.
    pub closed spec fn wf(&self) -> bool {
        forall|k: u128| self.entries@.contains_key(k) ==> key_of(cell_of(k)) == k
    }

    /// The empty map.
    pub fn new() -> (map: CoordMap<V>)
        ensures
            map.wf(),
            map@ == Map::<CellCoord, V>::empty(),
    {
        let map = CoordMap { entries: HashMap::new() };
        assert(map@ =~= Map::<CellCoord, V>::empty());
        map
    }

    /// The number of cells that have a value.
    pub fn len(&self) -> (n: usize)
        requires
            self.wf(),
        ensures
            self@.dom().finite(),
            n == self@.dom().len(),
    {
        proof {
            lemma_cells_of_keys(self.entries@.dom(), self@.dom());
        }
        self.entries.len()
    }

    /// The cells that have a value, each once. Their order is that in which
    /// the hash table hands them out, and nothing is stated of it.
    pub fn keys(&self) -> (cells: Vec<CellCoord>)
        requires
            self.wf(),
        ensures
            cells@.no_duplicates(),
            cells@.to_set() == self@.dom(),
    {
        let mut cells: Vec<CellCoord> = Vec::new();
        let ghost all = self.entries.keys().remaining();
        for k in it: self.entries.keys()
            invariant
                self.wf(),
                it.seq() == all,
                all.unref().to_set() == self.entries@.dom(),
                all.no_duplicates(),
                cells@.len() == it.index(),
                forall|j: int| 0 <= j < cells@.len() ==> cells@[j] == cell_of(*all[j]),
        {
            assert(all.unref()[it.index()] == *k);
            assert(all.unref().to_set().contains(*k));
            cells.push(cell(*k));
        }
        proof {
            assert forall|i: int, j: int|
                0 <= i < cells@.len() && 0 <= j < cells@.len() && i != j implies cells@[i]
                != cells@[j] by {
                assert(all.unref().to_set().contains(all.unref()[i]));
                assert(all.unref().to_set().contains(all.unref()[j]));
            }
            assert forall|c: CellCoord| cells@.to_set().contains(c) == self@.dom().contains(
                c,
            ) by {
                if cells@.to_set().contains(c) {
                    let j = choose|j: int| 0 <= j < cells@.len() && cells@[j] == c;
                    assert(all.unref().to_set().contains(all.unref()[j]));
                }
                if self@.dom().contains(c) {
                    lemma_key_roundtrip(c);
                    let k = key_of(c);
                    assert(all.unref().to_set().contains(k));
                    let j = choose|j: int| 0 <= j < all.unref().len() && all.unref()[j] == k;
                    assert(cells@[j] == c);
                }
            }
            assert(cells@.to_set() =~= self@.dom());
        }
        cells
    }

    /// Whether `coord` has a value.
    pub fn contains_key(&self, coord: &CellCoord) -> (found: bool)
        ensures
            found == self@.contains_key(*coord),
    {
        let k = key(coord);
        self.entries.contains_key(&k)
    }

    /// The value of `coord`, if it has one.
    pub fn get(&self, coord: &CellCoord) -> (value: Option<&V>)
        ensures
            match value {
                Some(v) => self@.contains_key(*coord) && *v == self@[*coord],
                None => !self@.contains_key(*coord),
            },
    {
        let k = key(coord);
        self.entries.get(&k)
    }

    /// Gives `coord` the value `value`, and returns the value it had.
    pub fn insert(&mut self, coord: CellCoord, value: V) -> (before: Option<V>)
        ensures
            old(self).wf() ==> final(self).wf(),
            final(self)@ == old(self)@.insert(coord, value),
            match before {
                Some(v) => old(self)@.contains_key(coord) && v == old(self)@[coord],
                None => !old(self)@.contains_key(coord),
            },
    {
        let k = key(&coord);
        proof {
            lemma_key_roundtrip(coord);
        }
        let before = self.entries.insert(k, value);
        proof {
            assert forall|c: CellCoord| key_of(c) == k implies c == coord by {
                lemma_key_injective(c, coord);
            }
            assert(self@ =~= old(self)@.insert(coord, value));
        }
        before
    }

    /// Takes the value of `coord` out of the map, and returns it.
    pub fn remove(&mut self, coord: &CellCoord) -> (before: Option<V>)
        ensures
            old(self).wf() ==> final(self).wf(),
            final(self)@ == old(self)@.remove(*coord),
            match before {
                Some(v) => old(self)@.contains_key(*coord) && v == old(self)@[*coord],
                None => !old(self)@.contains_key(*coord),
            },
    {
        let k = key(coord);
        let before = self.entries.remove(&k);
        proof {
            assert forall|c: CellCoord| key_of(c) == k implies c == *coord by {
                lemma_key_injective(c, *coord);
            }
            assert(self@ =~= old(self)@.remove(*coord));
        }
        before
    }
}

/// A set of cells.
#[derive(Debug)]
pub struct CoordSet {
    cells: CoordMap<()>,
}

impl View for CoordSet {
    type V = Set<CellCoord>;

    closed spec fn view(&self) -> Set<CellCoord> {
        self.cells@.dom()
    }
}

impl CoordSet {
    /// Every number in the table stands for a cell. This holds of a set that
    /// was made by `new` and changed by the methods below, and `len` needs it.
    pub closed spec fn wf(&self) -> bool {
        self.cells.wf()
    }

    /// The empty set.
    pub fn new() -> (set: CoordSet)
        ensures
            set.wf(),
            set@ == Set::<CellCoord>::empty(),
    {
        let set = CoordSet { cells: CoordMap::new() };
        assert(set@ =~= Set::<CellCoord>::empty());
        set
    }

    /// The number of cells in the set.
    pub fn len(&self) -> (n: usize)
        requires
            self.wf(),
        ensures
            self@.finite(),
            n == self@.len(),
    {
        self.cells.len()
    }

    /// The cells of the set, each once. Their order is that in which the hash
    /// table hands them out, and nothing is stated of it.
    pub fn cells(&self) -> (cells: Vec<CellCoord>)
        requires
            self.wf(),
        ensures
            cells@.no_duplicates(),
            cells@.to_set() == self@,
    {
        self.cells.keys()
    }

    /// Whether `coord` is in the set.
    pub fn contains(&self, coord: &CellCoord) -> (found: bool)
        ensures
            found == self@.contains(*coord),
    {
        self.cells.contains_key(coord)
    }

    /// Adds `coord` to the set, and tells whether it was new.
    pub fn insert(&mut self, coord: CellCoord) -> (added: bool)
        ensures
            old(self).wf() ==> final(self).wf(),
            final(self)@ == old(self)@.insert(coord),
            added == !old(self)@.contains(coord),
    {
        let before = self.cells.insert(coord, ());
        assert(self@ =~= old(self)@.insert(coord));
        before.is_none()
    }

    /// Takes `coord` out of the set, and tells whether it was there.
    pub fn remove(&mut self, coord: &CellCoord) -> (removed: bool)
        ensures
            old(self).wf() ==> final(self).wf(),
            final(self)@ == old(self)@.remove(*coord),
            removed == old(self)@.contains(*coord),
    {
        let before = self.cells.remove(coord);
        assert(self@ =~= old(self)@.remove(*coord));
        before.is_some()
    }
}

impl<V: Clone> Clone for CoordMap<V> {
    fn clone(&self) -> (copy: Self)
        ensures
            copy@ == self@,
            self.wf() ==> copy.wf(),
    {
        let copy = CoordMap { entries: self.entries.clone() };
        assert(copy@ =~= self@);
        copy
    }
}

impl Clone for CoordSet {
    fn clone(&self) -> (copy: Self)
        ensures
            copy@ == self@,
            self.wf() ==> copy.wf(),
    {
        CoordSet { cells: self.cells.clone() }
    }
}

} // verus!
