//! A belt as it lies on the cells of the world.

use crate::engine::cell::CellCoord;
use crate::engine::coords::CoordMap;
use vstd::prelude::*;

verus! {

/// What a belt carries.
#[derive(Debug, Clone, Copy, PartialEq, Eq, Structural)]
pub enum Material {
    Mat1,
    Mat2,
    Mat3,
    Mat4,
    Mat5,
}

/// A belt: the cells it lies on, and what it carries on each of them.
#[derive(Debug)]
pub struct Belt {
    pub id: u32,
    pub contents: CoordMap<Option<Material>>,
}

impl Belt {
    /// The belt with the given id that lies on the cells of `contents`.
    pub fn new(id: u32, contents: CoordMap<Option<Material>>) -> (belt: Belt)
        ensures
            belt.id == id,
            belt.contents == contents,
    {
        Belt { id, contents }
    }

    /// What the belt carries at `coord`: nothing where the belt does not lie.
    pub fn material_at(&self, coord: &CellCoord) -> (material: Option<Material>)
        ensures
            material == (if self.contents@.contains_key(*coord) {
                self.contents@[*coord]
            } else {
                None
            }),
    {
        match self.contents.get(coord) {
            Some(v) => *v,
            None => None,
        }
    }
}

impl Clone for Belt {
    fn clone(&self) -> (copy: Belt)
        ensures
            copy.id == self.id,
            copy.contents@ == self.contents@,
            self.contents.wf() ==> copy.contents.wf(),
    {
        Belt { id: self.id, contents: self.contents.clone() }
    }
}

} // verus!
