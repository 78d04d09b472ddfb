//! A building as it stands on a cell of the world.

use crate::engine::cell::CellCoord;
use crate::engine::coords::CoordMap;
use vstd::prelude::*;

verus! {

/// What a building is doing.
#[derive(Debug, Clone, Copy, PartialEq, Eq, Structural)]
pub enum BuildingState {
    /// One or more belt nodes are not connected to a belt.
    Disconnected,
    /// The stores for the input belts are not all full, and those that are
    /// not have materials waiting on their belts.
    Transferring,
    /// The stores for the input belts are not all full, and at least one of
    /// those that are not has an empty belt.
    Starved,
    /// The stores for the input belts are full and those for the output
    /// belts are not.
    Working,
    /// The stores for the output belts are not empty and their belts are full.
    Blocked,
    /// The building has been switched off by hand.
    Disabled,
}

impl BuildingState {
    /// The name of the state.
    pub open spec fn spec_name(&self) -> Seq<char> {
        match self {
            BuildingState::Disconnected => "Disconnected"@,
            BuildingState::Transferring => "Transferring"@,
            BuildingState::Starved => "Starved"@,
            BuildingState::Working => "Working"@,
            BuildingState::Blocked => "Blocked"@,
            BuildingState::Disabled => "Disabled"@,
        }
    }

    /// The name of the state.
    pub fn name(&self) -> (name: String)
        ensures
            name@ == self.spec_name(),
    {
        match self {
            BuildingState::Disconnected => "Disconnected".to_owned(),
            BuildingState::Transferring => "Transferring".to_owned(),
            BuildingState::Starved => "Starved".to_owned(),
            BuildingState::Working => "Working".to_owned(),
            BuildingState::Blocked => "Blocked".to_owned(),
            BuildingState::Disabled => "Disabled".to_owned(),
        }
    }
}

/// A building: where it stands, what it is doing, and its belt nodes, each
/// of which is connected to a belt or not.
#[derive(Debug)]
pub struct BuildingView {
    pub coord: CellCoord,
    pub state: BuildingState,
    pub nodes: CoordMap<bool>,
}

impl BuildingView {
    pub fn new(coord: CellCoord, nodes: CoordMap<bool>, state: BuildingState) -> (building:
        BuildingView)
        ensures
            building.coord == coord,
            building.state == state,
            building.nodes == nodes,
    {
        BuildingView { coord, state, nodes }
    }

    /// Marks the node at `coord` as connected. Nothing changes where the
    /// building has no node there.
    pub fn connect(&mut self, coord: &CellCoord)
        ensures
            final(self).coord == old(self).coord,
            final(self).state == old(self).state,
            final(self).nodes@ == (if old(self).nodes@.contains_key(*coord) {
                old(self).nodes@.insert(*coord, true)
            } else {
                old(self).nodes@
            }),
    {
        if self.nodes.contains_key(coord) {
            self.nodes.insert(*coord, true);
        }
    }

    /// Marks the node at `coord` as not connected. Nothing changes where the
    /// building has no node there.
    pub fn disconnect(&mut self, coord: &CellCoord)
        ensures
            final(self).coord == old(self).coord,
            final(self).state == old(self).state,
            final(self).nodes@ == (if old(self).nodes@.contains_key(*coord) {
                old(self).nodes@.insert(*coord, false)
            } else {
                old(self).nodes@
            }),
    {
        if self.nodes.contains_key(coord) {
            self.nodes.insert(*coord, false);
        }
    }

    /// Whether the building has a node at `coord`, connected or not.
    pub fn is_connected(&self, coord: &CellCoord) -> (found: bool)
        ensures
            found == self.nodes@.contains_key(*coord),
    {
        self.nodes.contains_key(coord)
    }
}

impl Clone for BuildingView {
    fn clone(&self) -> (copy: BuildingView)
        ensures
            copy.coord == self.coord,
            copy.state == self.state,
            copy.nodes@ == self.nodes@,
    {
        BuildingView { coord: self.coord, state: self.state, nodes: self.nodes.clone() }
    }
}

} // verus!
