//! The placed buildings and belts as a drawing needs them: by cell, with the
//! cells that are taken.

use crate::engine::cell::CellCoord;
use crate::engine::coords::{CoordMap, CoordSet};
use crate::game::view::belt::Material;
use crate::game::view::building::BuildingView;
use vstd::prelude::*;

verus! {

/// A belt as it is shown: the cells it lies on, and what it carries on each.
#[derive(Debug)]
pub struct BeltView {
    pub contents: CoordMap<Option<Material>>,
}

impl BeltView {
    pub fn new(contents: CoordMap<Option<Material>>) -> (belt: BeltView)
        ensures
            belt.contents == contents,
    {
        BeltView { contents }
    }

    /// What the belt carries at `coord`: nothing where the belt does not lie.
    pub fn material_at(&self, coord: &CellCoord) -> (material: Option<Material>)
        ensures
            material == (if self.contents@.contains_key(*coord) {
                self.contents@[*coord]
            } else {
                None
            }),
    {
        match self.contents.get(coord) {
            Some(v) => *v,
            None => None,
        }
    }
}

impl Clone for BeltView {
    fn clone(&self) -> (copy: BeltView)
        ensures
            copy.contents@ == self.contents@,
            self.contents.wf() ==> copy.contents.wf(),
    {
        BeltView { contents: self.contents.clone() }
    }
}

/// The positions in `belts` of the belts that lie on the cell at `coord`.
pub open spec fn belts_over(belts: Seq<BeltView>, coord: CellCoord) -> Seq<int>
    decreases belts.len(),
{
    if belts.len() == 0 {
        Seq::empty()
    } else if belts.last().contents@.contains_key(coord) {
        belts_over(belts.drop_last(), coord).push(belts.len() - 1)
    } else {
        belts_over(belts.drop_last(), coord)
    }
}

/// Whether `list` holds a copy of each belt of `belts` that lies on the cell
/// at `coord`, in the order of `belts`.
pub open spec fn lists_belts(list: Seq<BeltView>, belts: Seq<BeltView>, coord: CellCoord) -> bool {
    let at = belts_over(belts, coord);
    &&& list.len() == at.len()
    &&& forall|k: int|
        0 <= k < list.len() ==> 0 <= at[k] < belts.len() && (#[trigger] list[k]).contents@
            == belts[at[k]].contents@
}

/// The position in `buildings` of the last building that stands on the cell
/// at `coord`, or -1 where none does.
pub open spec fn last_building_on(buildings: Seq<BuildingView>, coord: CellCoord) -> int
    decreases buildings.len(),
{
    if buildings.len() == 0 {
        -1
    } else if buildings.last().coord == coord {
        buildings.len() - 1
    } else {
        last_building_on(buildings.drop_last(), coord)
    }
}

/// The cells on which some belt of `belts` lies.
pub open spec fn cells_under(belts: Seq<BeltView>) -> Set<CellCoord> {
    Set::new(|c: CellCoord| belts_over(belts, c).len() > 0)
}

/// The cells on which some building of `buildings` stands.
pub open spec fn cells_built(buildings: Seq<BuildingView>) -> Set<CellCoord> {
    Set::new(|c: CellCoord| last_building_on(buildings, c) >= 0)
}

/// The positions that `belts_over` gives are positions of `belts`.
pub proof fn lemma_belts_over(belts: Seq<BeltView>, coord: CellCoord)
    ensures
        forall|k: int|
            0 <= k < belts_over(belts, coord).len() ==> 0 <= #[trigger] belts_over(belts, coord)[k]
                < belts.len(),
    decreases belts.len(),
{
    if belts.len() > 0 {
        lemma_belts_over(belts.drop_last(), coord);
        let earlier = belts_over(belts.drop_last(), coord);
        assert forall|k: int| 0 <= k < belts_over(belts, coord).len() implies 0
            <= #[trigger] belts_over(belts, coord)[k] < belts.len() by {
            if k < earlier.len() {
                assert(belts_over(belts, coord)[k] == earlier[k]);
            }
        }
    }
}

/// The placed buildings and belts, by cell.
#[derive(Debug)]
pub struct GameStateView {
    /// The building on each cell that has one.
    pub buildings_map: CoordMap<BuildingView>,
    /// The belts that lie on each cell on which a belt lies.
    pub belts_map: CoordMap<Vec<BeltView>>,
    /// The cells that are taken by a building or a belt.
    pub collision_set: CoordSet,
}

/// Places `belt`: on each cell on which it lies, the list of belts gets a
/// copy of it at its end, and the cell is taken.
fn place_belt(belts_map: &mut CoordMap<Vec<BeltView>>, taken: &mut CoordSet, belt: &BeltView)
    requires
        belt.contents.wf(),
    ensures
        old(belts_map).wf() ==> final(belts_map).wf(),
        old(taken).wf() ==> final(taken).wf(),
        final(taken)@ == old(taken)@ + belt.contents@.dom(),
        final(belts_map)@.dom() == old(belts_map)@.dom() + belt.contents@.dom(),
        forall|c: CellCoord| #[trigger]
            belt.contents@.contains_key(c) ==> {
                let list = final(belts_map)@[c]@;
                let before = if old(belts_map)@.contains_key(c) {
                    old(belts_map)@[c]@
                } else {
                    Seq::empty()
                };
                &&& list.len() == before.len() + 1
                &&& list.drop_last() == before
                &&& list.last().contents@ == belt.contents@
            },
        forall|c: CellCoord|
            !belt.contents@.contains_key(c) && #[trigger] old(belts_map)@.contains_key(c)
                ==> final(belts_map)@[c] == old(belts_map)@[c],
{
    let cells = belt.contents.keys();
    let ghost first = belts_map@;
    let ghost first_taken = taken@;
    let mut i: usize = 0;
    while i < cells.len()
        invariant
            0 <= i <= cells@.len(),
            cells@.no_duplicates(),
            cells@.to_set() == belt.contents@.dom(),
            first == old(belts_map)@,
            first_taken == old(taken)@,
            old(belts_map).wf() ==> belts_map.wf(),
            old(taken).wf() ==> taken.wf(),
            taken@ == first_taken + cells@.take(i as int).to_set(),
            belts_map@.dom() == first.dom() + cells@.take(i as int).to_set(),
            forall|j: int|
                0 <= j < i ==> {
                    let list = belts_map@[#[trigger] cells@[j]]@;
                    let before = if first.contains_key(cells@[j]) {
                        first[cells@[j]]@
                    } else {
                        Seq::empty()
                    };
                    &&& list.len() == before.len() + 1
                    &&& list.drop_last() == before
                    &&& list.last().contents@ == belt.contents@
                },
            forall|c: CellCoord|
                !cells@.take(i as int).contains(c) && #[trigger] first.contains_key(c)
                    ==> belts_map@.contains_key(c) && belts_map@[c] == first[c],
        decreases cells@.len() - i,
    {
        let coord = cells[i];
        let ghost before = belts_map@;
        let ghost done = cells@.take(i as int);
        proof {
            assert(!done.contains(coord)) by {
                if done.contains(coord) {
                    let j = choose|j: int| 0 <= j < done.len() && done[j] == coord;
                    assert(cells@[j] == coord);
                }
            }
            assert(before.contains_key(coord) == first.contains_key(coord)) by {
                if before.contains_key(coord) {
                    assert((first.dom() + done.to_set()).contains(coord));
                }
            }
        }
        let mut list = match belts_map.remove(&coord) {
            Some(list) => list,
            None => Vec::new(),
        };
        let ghost earlier = list@;
        list.push(belt.clone());
        assert(list@.drop_last() =~= earlier);
        belts_map.insert(coord, list);
        taken.insert(coord);
        proof {
            let after = cells@.take(i + 1);
            assert(after =~= done.push(coord));
            assert forall|c: CellCoord| after.to_set().contains(c) <==> done.to_set().contains(c)
                || c == coord by {
                if done.to_set().contains(c) {
                    let j = choose|j: int| 0 <= j < done.len() && done[j] == c;
                    assert(after[j] == c);
                }
                if c == coord {
                    assert(after[i as int] == c);
                }
                if after.to_set().contains(c) {
                    let j = choose|j: int| 0 <= j < after.len() && after[j] == c;
                    if j < i {
                        assert(done[j] == c);
                    }
                }
            }
            assert(belts_map@.dom() =~= first.dom() + after.to_set());
            assert(taken@ =~= first_taken + after.to_set());
            assert forall|j: int| 0 <= j < i + 1 implies {
                let list = belts_map@[#[trigger] cells@[j]]@;
                let before = if first.contains_key(cells@[j]) {
                    first[cells@[j]]@
                } else {
                    Seq::empty()
                };
                &&& list.len() == before.len() + 1
                &&& list.drop_last() == before
                &&& list.last().contents@ == belt.contents@
            } by {
                if j < i {
                    assert(cells@[j] != coord);
                    assert(belts_map@[cells@[j]] == before[cells@[j]]);
                }
            }
            assert forall|c: CellCoord|
                !after.contains(c) && #[trigger] first.contains_key(c)
                    implies belts_map@.contains_key(c) && belts_map@[c] == first[c] by {
                assert(after[i as int] == coord);
                if done.contains(c) {
                    let j = choose|j: int| 0 <= j < done.len() && done[j] == c;
                    assert(after[j] == c);
                }
            }
        }
        i += 1;
    }
    proof {
        assert(cells@.take(cells@.len() as int) =~= cells@);
        assert forall|c: CellCoord| #[trigger] belt.contents@.contains_key(c) implies {
            let list = belts_map@[c]@;
            let before = if first.contains_key(c) {
                first[c]@
            } else {
                Seq::empty()
            };
            &&& list.len() == before.len() + 1
            &&& list.drop_last() == before
            &&& list.last().contents@ == belt.contents@
        } by {
            assert(cells@.to_set().contains(c));
            let j = choose|j: int| 0 <= j < cells@.len() && cells@[j] == c;
            assert(cells@[j] == c);
        }
        assert forall|c: CellCoord|
            !belt.contents@.contains_key(c) && #[trigger] first.contains_key(c)
                implies belts_map@[c] == first[c] by {
            assert(!cells@.to_set().contains(c));
        }
    }
}

impl GameStateView {
    /// The view of the given buildings and belts. Of several buildings on one
    /// cell the last is shown.
    pub fn new(buildings: &[BuildingView], belts: &[BeltView]) -> (view: GameStateView)
        requires
            forall|i: int| 0 <= i < belts@.len() ==> (#[trigger] belts@[i]).contents.wf(),
        ensures
            view.buildings_map.wf(),
            view.belts_map.wf(),
            view.collision_set.wf(),
            view.buildings_map@.dom() == cells_built(buildings@),
            forall|c: CellCoord| #[trigger]
                view.buildings_map@.contains_key(c) ==> {
                    let shown = view.buildings_map@[c];
                    let placed = buildings@[last_building_on(buildings@, c)];
                    &&& shown.coord == c
                    &&& shown.state == placed.state
                    &&& shown.nodes@ == placed.nodes@
                },
            view.belts_map@.dom() == cells_under(belts@),
            forall|c: CellCoord| #[trigger]
                view.belts_map@.contains_key(c) ==> lists_belts(view.belts_map@[c]@, belts@, c),
            view.collision_set@ == cells_built(buildings@) + cells_under(belts@),
    {
        let mut buildings_map: CoordMap<BuildingView> = CoordMap::new();
        let mut belts_map: CoordMap<Vec<BeltView>> = CoordMap::new();
        let mut collision_set = CoordSet::new();

        let mut i: usize = 0;
        while i < buildings.len()
            invariant
                0 <= i <= buildings@.len(),
                buildings_map.wf(),
                collision_set.wf(),
                buildings_map@.dom() == cells_built(buildings@.take(i as int)),
                collision_set@ == cells_built(buildings@.take(i as int)),
                forall|c: CellCoord| #[trigger]
                    buildings_map@.contains_key(c) ==> {
                        let shown = buildings_map@[c];
                        let at = last_building_on(buildings@.take(i as int), c);
                        &&& 0 <= at < i
                        &&& shown.coord == c
                        &&& shown.state == buildings@[at].state
                        &&& shown.nodes@ == buildings@[at].nodes@
                    },
            decreases buildings@.len() - i,
        {
            let building = &buildings[i];
            let ghost before = buildings_map@;
            buildings_map.insert(building.coord, building.clone());
            collision_set.insert(building.coord);
            proof {
                let done = buildings@.take(i as int);
                let after = buildings@.take(i + 1);
                assert(after.drop_last() =~= done);
                assert(after.last() == buildings@[i as int]);
                assert forall|c: CellCoord|
                    cells_built(after).contains(c) <==> cells_built(done).contains(c) || c
                        == building.coord by {
                }
                assert(buildings_map@.dom() =~= cells_built(after));
                assert(collision_set@ =~= cells_built(after));
            }
            i += 1;
        }
        assert(buildings@.take(buildings@.len() as int) =~= buildings@);

        let mut j: usize = 0;
        while j < belts.len()
            invariant
                0 <= j <= belts@.len(),
                forall|i: int| 0 <= i < belts@.len() ==> (#[trigger] belts@[i]).contents.wf(),
                belts_map.wf(),
                collision_set.wf(),
                belts_map@.dom() == cells_under(belts@.take(j as int)),
                collision_set@ == cells_built(buildings@) + cells_under(belts@.take(j as int)),
                forall|c: CellCoord| #[trigger]
                    belts_map@.contains_key(c) ==> lists_belts(
                        belts_map@[c]@,
                        belts@.take(j as int),
                        c,
                    ),
            decreases belts@.len() - j,
        {
            let ghost before = belts_map@;
            let ghost done = belts@.take(j as int);
            let ghost after = belts@.take(j + 1);
            place_belt(&mut belts_map, &mut collision_set, &belts[j]);
            proof {
                assert(after.drop_last() =~= done);
                assert(after.last() == belts@[j as int]);
                assert forall|c: CellCoord|
                    cells_under(after).contains(c) <==> cells_under(done).contains(c)
                        || belts@[j as int].contents@.contains_key(c) by {
                }
                assert(belts_map@.dom() =~= cells_under(after));
                assert(collision_set@ =~= cells_built(buildings@) + cells_under(after));
                assert forall|c: CellCoord| #[trigger] belts_map@.contains_key(c) implies lists_belts(
                    belts_map@[c]@,
                    after,
                    c,
                ) by {
                    lemma_belts_over(done, c);
                    let list = belts_map@[c]@;
                    if belts@[j as int].contents@.contains_key(c) {
                        let earlier = if before.contains_key(c) {
                            before[c]@
                        } else {
                            Seq::empty()
                        };
                        if before.contains_key(c) {
                            assert(lists_belts(before[c]@, done, c));
                        } else {
                            assert(!cells_under(done).contains(c));
                        }
                        assert forall|k: int| 0 <= k < list.len() implies 0 <= belts_over(
                            after,
                            c,
                        )[k] < after.len() && (#[trigger] list[k]).contents@
                            == after[belts_over(after, c)[k]].contents@ by {
                            if k < earlier.len() {
                                assert(list[k] == list.drop_last()[k]);
                                assert(earlier[k].contents@ == done[belts_over(done, c)[k]].contents@);
                            }
                        }
                    } else {
                        assert(before.contains_key(c));
                        assert(lists_belts(before[c]@, done, c));
                        assert forall|k: int| 0 <= k < list.len() implies 0 <= belts_over(
                            after,
                            c,
                        )[k] < after.len() && (#[trigger] list[k]).contents@
                            == after[belts_over(after, c)[k]].contents@ by {
                            assert(list[k].contents@ == done[belts_over(done, c)[k]].contents@);
                        }
                    }
                }
            }
            j += 1;
        }
        assert(belts@.take(belts@.len() as int) =~= belts@);

        GameStateView { buildings_map, belts_map, collision_set }
    }

    /// The belts that lie on the cell at `coord`, if any does.
    pub fn belts_at(&self, coord: &CellCoord) -> (found: Option<&[BeltView]>)
        ensures
            match found {
                Some(list) => self.belts_map@.contains_key(*coord) && list@
                    == self.belts_map@[*coord]@,
                None => !self.belts_map@.contains_key(*coord),
            },
    {
        match self.belts_map.get(coord) {
            Some(v) => Some(v.as_slice()),
            None => None,
        }
    }

    /// The building on the cell at `coord`, if there is one.
    pub fn building_at(&self, coord: &CellCoord) -> (found: Option<&BuildingView>)
        ensures
            match found {
                Some(building) => self.buildings_map@.contains_key(*coord) && *building
                    == self.buildings_map@[*coord],
                None => !self.buildings_map@.contains_key(*coord),
            },
    {
        self.buildings_map.get(coord)
    }
}

} // verus!
