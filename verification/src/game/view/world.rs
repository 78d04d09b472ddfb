//! The state of the game: the world, and the buildings and belts placed on it.

use crate::engine::cell::CellCoord;
use crate::engine::coords::{CoordMap, CoordSet};
use crate::game::view::belt::Belt;
use crate::game::view::building::BuildingView;
use vstd::prelude::*;

verus! {

/// What the player is in the middle of doing.
#[derive(Debug, Clone, Copy)]
pub enum UserAction {
    /// A belt is being drawn from `begin`. `end` is the last cell to which a
    /// way was found, and `previous_check` the last cell that was tried.
    PlacingBelt { begin: CellCoord, end: Option<CellCoord>, previous_check: CellCoord },
}

/// The state of the game.
#[derive(Debug)]
pub struct GameState {
    /// The cells of the world.
    pub world: CoordSet,
    /// The building on each cell that has one.
    pub buildings: CoordMap<BuildingView>,
    /// The belts that lie on each cell on which a belt was placed.
    pub belts: CoordMap<Vec<Belt>>,
    pub current_action: Option<UserAction>,
}

/// Whether `copy` is `belt` again: the same id, lying on the same cells with
/// the same materials.
pub open spec fn same_belt(copy: Belt, belt: Belt) -> bool {
    copy.id == belt.id && copy.contents@ == belt.contents@
}

/// The belts of `list` whose id is not `belt_id`, in their order.
pub open spec fn without_belt(list: Seq<Belt>, belt_id: u32) -> Seq<Belt>
    decreases list.len(),
{
    if list.len() == 0 {
        Seq::empty()
    } else if list.last().id == belt_id {
        without_belt(list.drop_last(), belt_id)
    } else {
        without_belt(list.drop_last(), belt_id).push(list.last())
    }
}

/// The belts that lie on the cell at `coord`: none where no belt was placed.
pub open spec fn belts_on(belts: Map<CellCoord, Vec<Belt>>, coord: CellCoord) -> Seq<Belt> {
    if belts.contains_key(coord) {
        belts[coord]@
    } else {
        Seq::empty()
    }
}

/// The cells on which at least one belt lies.
pub open spec fn cells_with_belts(belts: Map<CellCoord, Vec<Belt>>) -> Set<CellCoord> {
    Set::new(|c: CellCoord| belts_on(belts, c).len() > 0)
}

/// Adds every cell of `cells` to `set`.
fn insert_all(set: &mut CoordSet, cells: &Vec<CellCoord>)
    ensures
        final(set)@ == old(set)@ + cells@.to_set(),
        old(set).wf() ==> final(set).wf(),
{
    let mut i: usize = 0;
    while i < cells.len()
        invariant
            0 <= i <= cells@.len(),
            set@ == old(set)@ + cells@.take(i as int).to_set(),
            old(set).wf() ==> set.wf(),
        decreases cells@.len() - i,
    {
        set.insert(cells[i]);
        proof {
            let before = cells@.take(i as int);
            let after = cells@.take(i + 1);
            assert(after =~= before.push(cells@[i as int]));
            assert forall|c: CellCoord| after.to_set().contains(c) <==> before.to_set().contains(c)
                || c == cells@[i as int] by {
                if before.to_set().contains(c) {
                    let j = choose|j: int| 0 <= j < before.len() && before[j] == c;
                    assert(after[j] == c);
                }
                if c == cells@[i as int] {
                    assert(after[i as int] == c);
                }
                if after.to_set().contains(c) {
                    let j = choose|j: int| 0 <= j < after.len() && after[j] == c;
                    if j < i {
                        assert(before[j] == c);
                    }
                }
            }
            assert(set@ =~= old(set)@ + after.to_set());
        }
        i += 1;
    }
    assert(cells@.take(cells@.len() as int) =~= cells@);
}

/// The belts of `list` whose id is not `belt_id`, in their order.
fn remove_from(list: Vec<Belt>, belt_id: u32) -> (kept: Vec<Belt>)
    ensures
        kept@ == without_belt(list@, belt_id),
{
    let ghost all = list@;
    let mut kept: Vec<Belt> = Vec::new();
    for belt in it: list
        invariant
            it.seq() == all,
            kept@ == without_belt(all.take(it.index()), belt_id),
    {
        proof {
            assert(all.take(it.index() + 1).drop_last() =~= all.take(it.index()));
        }
        if belt.id != belt_id {
            kept.push(belt);
        }
    }
    assert(all.take(all.len() as int) =~= all);
    kept
}

impl GameState {
    /// The tables of buildings and belts are as `new` and the methods below leave them.
    pub open spec fn wf(&self) -> bool {
        self.buildings.wf() && self.belts.wf()
    }

    /// The state of a game on the cells of `world`, with nothing placed yet.
    pub fn new(world: CoordSet) -> (state: GameState)
        ensures
            state.wf(),
            state.world == world,
            state.buildings@ == Map::<CellCoord, BuildingView>::empty(),
            state.belts@ == Map::<CellCoord, Vec<Belt>>::empty(),
            state.current_action is None,
    {
        GameState {
            world: world,
            buildings: CoordMap::new(),
            belts: CoordMap::new(),
            current_action: None,
        }
    }

    /// Places `building` on its cell, in place of any building that stood there.
    pub fn add_building(&mut self, building: BuildingView)
        ensures
            old(self).wf() ==> final(self).wf(),
            final(self).buildings@ == old(self).buildings@.insert(building.coord, building),
            final(self).world == old(self).world,
            final(self).belts == old(self).belts,
            final(self).current_action == old(self).current_action,
    {
        self.buildings.insert(building.coord, building);
    }

    /// Takes the building off the cell at `coord`.
    pub fn remove_building(&mut self, coord: &CellCoord)
        ensures
            old(self).wf() ==> final(self).wf(),
            final(self).buildings@ == old(self).buildings@.remove(*coord),
            final(self).world == old(self).world,
            final(self).belts == old(self).belts,
            final(self).current_action == old(self).current_action,
    {
        self.buildings.remove(coord);
    }

    /// Places `belt`: on each cell on which it lies, the list of belts gets
    /// a copy of it at its end.
    pub fn add_belt(&mut self, belt: Belt)
        requires
            belt.contents.wf(),
        ensures
            old(self).wf() ==> final(self).wf(),
            final(self).belts@.dom() == old(self).belts@.dom() + belt.contents@.dom(),
            forall|c: CellCoord| #[trigger]
                belt.contents@.contains_key(c) ==> {
                    let list = belts_on(final(self).belts@, c);
                    &&& list.len() == belts_on(old(self).belts@, c).len() + 1
                    &&& list.drop_last() == belts_on(old(self).belts@, c)
                    &&& same_belt(list.last(), belt)
                },
            forall|c: CellCoord|
                !belt.contents@.contains_key(c) && #[trigger] old(self).belts@.contains_key(c)
                    ==> final(self).belts@[c] == old(self).belts@[c],
            final(self).world == old(self).world,
            final(self).buildings == old(self).buildings,
            final(self).current_action == old(self).current_action,
    {
        let cells = belt.contents.keys();
        let ghost first = self.belts@;
        let mut i: usize = 0;
        while i < cells.len()
            invariant
                0 <= i <= cells@.len(),
                cells@.no_duplicates(),
                cells@.to_set() == belt.contents@.dom(),
                self.world == old(self).world,
                self.buildings == old(self).buildings,
                self.current_action == old(self).current_action,
                first == old(self).belts@,
                old(self).wf() ==> self.wf(),
                self.belts@.dom() == first.dom() + cells@.take(i as int).to_set(),
                forall|j: int|
                    0 <= j < i ==> {
                        let list = belts_on(self.belts@, #[trigger] cells@[j]);
                        &&& list.len() == belts_on(first, cells@[j]).len() + 1
                        &&& list.drop_last() == belts_on(first, cells@[j])
                        &&& same_belt(list.last(), belt)
                    },
                forall|c: CellCoord|
                    !cells@.take(i as int).contains(c) && #[trigger] first.contains_key(c)
                        ==> self.belts@.contains_key(c) && self.belts@[c] == first[c],
            decreases cells@.len() - i,
        {
            let coord = cells[i];
            let ghost before = self.belts@;
            let ghost done = cells@.take(i as int);
            proof {
                assert(!done.contains(coord)) by {
                    if done.contains(coord) {
                        let j = choose|j: int| 0 <= j < done.len() && done[j] == coord;
                        assert(cells@[j] == coord);
                    }
                }
                assert(before.contains_key(coord) == first.contains_key(coord)) by {
                    if before.contains_key(coord) {
                        assert((first.dom() + done.to_set()).contains(coord));
                    }
                }
                assert(belts_on(before, coord) == belts_on(first, coord));
            }
            let mut list = match self.belts.remove(&coord) {
                Some(list) => list,
                None => Vec::new(),
            };
            let ghost earlier = list@;
            assert(earlier == belts_on(first, coord));
            list.push(belt.clone());
            assert(list@.drop_last() =~= earlier);
            self.belts.insert(coord, list);
            proof {
                let after = cells@.take(i + 1);
                assert(after =~= done.push(coord));
                assert forall|c: CellCoord| after.to_set().contains(c) <==> done.to_set().contains(
                    c,
                ) || c == coord by {
                    if done.to_set().contains(c) {
                        let j = choose|j: int| 0 <= j < done.len() && done[j] == c;
                        assert(after[j] == c);
                    }
                    if c == coord {
                        assert(after[i as int] == c);
                    }
                    if after.to_set().contains(c) {
                        let j = choose|j: int| 0 <= j < after.len() && after[j] == c;
                        if j < i {
                            assert(done[j] == c);
                        }
                    }
                }
                assert(self.belts@.dom() =~= first.dom() + after.to_set());
                assert forall|j: int| 0 <= j < i + 1 implies {
                    let list = belts_on(self.belts@, #[trigger] cells@[j]);
                    &&& list.len() == belts_on(first, cells@[j]).len() + 1
                    &&& list.drop_last() == belts_on(first, cells@[j])
                    &&& same_belt(list.last(), belt)
                } by {
                    if j < i {
                        assert(cells@[j] != coord);
                        assert(belts_on(self.belts@, cells@[j]) == belts_on(before, cells@[j]));
                    }
                }
                assert forall|c: CellCoord|
                    !after.contains(c) && #[trigger] first.contains_key(c)
                        implies self.belts@.contains_key(c) && self.belts@[c] == first[c] by {
                    assert(after[i as int] == coord);
                    if done.contains(c) {
                        let j = choose|j: int| 0 <= j < done.len() && done[j] == c;
                        assert(after[j] == c);
                    }
                }
            }
            i += 1;
        }
        proof {
            assert(cells@.take(cells@.len() as int) =~= cells@);
            assert forall|c: CellCoord| #[trigger] belt.contents@.contains_key(c) implies {
                let list = belts_on(self.belts@, c);
                &&& list.len() == belts_on(first, c).len() + 1
                &&& list.drop_last() == belts_on(first, c)
                &&& same_belt(list.last(), belt)
            } by {
                assert(cells@.to_set().contains(c));
                let j = choose|j: int| 0 <= j < cells@.len() && cells@[j] == c;
                assert(cells@[j] == c);
            }
            assert forall|c: CellCoord|
                !belt.contents@.contains_key(c) && #[trigger] first.contains_key(c)
                    implies self.belts@[c] == first[c] by {
                assert(!cells@.to_set().contains(c));
            }
        }
    }

    /// Takes the belt with the id `belt_id` out of the list of every cell. A
    /// cell on which no belt is left has no list any more.
    pub fn remove_belt(&mut self, belt_id: u32)
        requires
            old(self).wf(),
        ensures
            final(self).wf(),
            forall|c: CellCoord| #[trigger]
                final(self).belts@.contains_key(c) <==> old(self).belts@.contains_key(c)
                    && without_belt(old(self).belts@[c]@, belt_id).len() > 0,
            forall|c: CellCoord| #[trigger]
                final(self).belts@.contains_key(c) ==> final(self).belts@[c]@ == without_belt(
                    old(self).belts@[c]@,
                    belt_id,
                ),
            final(self).world == old(self).world,
            final(self).buildings == old(self).buildings,
            final(self).current_action == old(self).current_action,
    {
        let cells = self.belts.keys();
        let ghost first = self.belts@;
        let mut i: usize = 0;
        while i < cells.len()
            invariant
                0 <= i <= cells@.len(),
                cells@.no_duplicates(),
                cells@.to_set() == first.dom(),
                self.world == old(self).world,
                self.buildings == old(self).buildings,
                self.current_action == old(self).current_action,
                first == old(self).belts@,
                self.wf(),
                forall|c: CellCoord| #[trigger] self.belts@.contains_key(c) ==> first.contains_key(c),
                forall|j: int|
                    0 <= j < i ==> (self.belts@.contains_key(#[trigger] cells@[j]) <==> without_belt(
                        first[cells@[j]]@,
                        belt_id,
                    ).len() > 0),
                forall|j: int|
                    0 <= j < i && self.belts@.contains_key(#[trigger] cells@[j])
                        ==> self.belts@[cells@[j]]@ == without_belt(first[cells@[j]]@, belt_id),
                forall|j: int|
                    i <= j < cells@.len() ==> self.belts@.contains_key(#[trigger] cells@[j])
                        && self.belts@[cells@[j]] == first[cells@[j]],
            decreases cells@.len() - i,
        {
            let coord = cells[i];
            let ghost before = self.belts@;
            assert(cells@.to_set().contains(cells@[i as int]));
            let list = match self.belts.remove(&coord) {
                Some(list) => list,
                None => Vec::new(),
            };
            let kept = remove_from(list, belt_id);
            if kept.len() > 0 {
                self.belts.insert(coord, kept);
            }
            proof {
                assert forall|j: int| 0 <= j < i + 1 implies (self.belts@.contains_key(
                    #[trigger] cells@[j],
                ) <==> without_belt(first[cells@[j]]@, belt_id).len() > 0) by {
                    if j < i {
                        assert(cells@[j] != coord);
                        assert(self.belts@.contains_key(cells@[j]) == before.contains_key(
                            cells@[j],
                        ));
                    }
                }
                assert forall|j: int|
                    0 <= j < i + 1 && self.belts@.contains_key(
                        #[trigger] cells@[j],
                    ) implies self.belts@[cells@[j]]@ == without_belt(
                    first[cells@[j]]@,
                    belt_id,
                ) by {
                    if j < i {
                        assert(cells@[j] != coord);
                        assert(self.belts@[cells@[j]] == before[cells@[j]]);
                    }
                }
                assert forall|j: int| i + 1 <= j < cells@.len() implies self.belts@.contains_key(
                    #[trigger] cells@[j],
                ) && self.belts@[cells@[j]] == first[cells@[j]] by {
                    assert(cells@[j] != coord);
                    assert(before.contains_key(cells@[j]));
                    assert(self.belts@[cells@[j]] == before[cells@[j]]);
                }
            }
            i += 1;
        }
        proof {
            assert forall|c: CellCoord| #[trigger]
                self.belts@.contains_key(c) <==> first.contains_key(c) && without_belt(
                    first[c]@,
                    belt_id,
                ).len() > 0 by {
                if first.contains_key(c) {
                    assert(cells@.to_set().contains(c));
                    let j = choose|j: int| 0 <= j < cells@.len() && cells@[j] == c;
                    assert(cells@[j] == c);
                }
            }
            assert forall|c: CellCoord| #[trigger]
                self.belts@.contains_key(c) implies self.belts@[c]@ == without_belt(
                first[c]@,
                belt_id,
            ) by {
                assert(cells@.to_set().contains(c));
                let j = choose|j: int| 0 <= j < cells@.len() && cells@[j] == c;
                assert(cells@[j] == c);
            }
        }
    }

    /// The cells that are taken: those on which a building stands, and those
    /// on which at least one belt lies.
    pub fn collisions(&self) -> (taken: CoordSet)
        requires
            self.wf(),
        ensures
            taken.wf(),
            taken@ == self.buildings@.dom() + cells_with_belts(self.belts@),
    {
        let mut collision_set = CoordSet::new();
        let with_buildings = self.buildings.keys();
        insert_all(&mut collision_set, &with_buildings);
        let listed = self.belts.keys();
        let mut i: usize = 0;
        while i < listed.len()
            invariant
                0 <= i <= listed@.len(),
                listed@.to_set() == self.belts@.dom(),
                collision_set.wf(),
                forall|c: CellCoord| #[trigger]
                    collision_set@.contains(c) <==> self.buildings@.contains_key(c) || (
                    listed@.take(i as int).contains(c) && belts_on(self.belts@, c).len() > 0),
            decreases listed@.len() - i,
        {
            let coord = listed[i];
            let ghost before = collision_set@;
            let ghost done = listed@.take(i as int);
            assert(listed@.to_set().contains(listed@[i as int]));
            let lies = match self.belts.get(&coord) {
                Some(list) => list.len() > 0,
                None => false,
            };
            if lies {
                collision_set.insert(coord);
            }
            proof {
                let after = listed@.take(i + 1);
                assert(after =~= done.push(coord));
                assert forall|c: CellCoord| after.contains(c) <==> done.contains(c) || c
                    == coord by {
                    if done.contains(c) {
                        let j = choose|j: int| 0 <= j < done.len() && done[j] == c;
                        assert(after[j] == c);
                    }
                    if c == coord {
                        assert(after[i as int] == c);
                    }
                    if after.contains(c) {
                        let j = choose|j: int| 0 <= j < after.len() && after[j] == c;
                        if j < i {
                            assert(done[j] == c);
                        }
                    }
                }
                assert forall|c: CellCoord| #[trigger]
                    collision_set@.contains(c) <==> self.buildings@.contains_key(c) || (
                    after.contains(c) && belts_on(self.belts@, c).len() > 0) by {
                    assert(collision_set@.contains(c) <==> before.contains(c) || (lies && c
                        == coord));
                }
            }
            i += 1;
        }
        proof {
            assert(listed@.take(listed@.len() as int) =~= listed@);
            assert forall|c: CellCoord|
                collision_set@.contains(c) <==> (self.buildings@.dom() + cells_with_belts(
                    self.belts@,
                )).contains(c) by {
                if belts_on(self.belts@, c).len() > 0 {
                    assert(self.belts@.contains_key(c));
                    assert(listed@.to_set().contains(c));
                }
            }
            assert(collision_set@ =~= self.buildings@.dom() + cells_with_belts(self.belts@));
        }
        collision_set
    }

    /// The belts that lie on the cell at `coord`, if a belt was placed there.
    pub fn belts_at(&self, coord: &CellCoord) -> (found: Option<&[Belt]>)
        ensures
            match found {
                Some(list) => self.belts@.contains_key(*coord) && list@ == self.belts@[*coord]@,
                None => !self.belts@.contains_key(*coord),
            },
    {
        match self.belts.get(coord) {
            Some(v) => Some(v.as_slice()),
            None => None,
        }
    }

    /// The building on the cell at `coord`, if there is one.
    pub fn building_at(&self, coord: &CellCoord) -> (found: Option<&BuildingView>)
        ensures
            match found {
                Some(building) => self.buildings@.contains_key(*coord) && *building
                    == self.buildings@[*coord],
                None => !self.buildings@.contains_key(*coord),
            },
    {
        self.buildings.get(coord)
    }
}

} // verus!
