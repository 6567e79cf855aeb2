use vstd::prelude::*;

use crate::coord::Coord;

verus! {

/// A set of positions that must hold each value exactly once: a row, a
/// column, a block or an extra region.
#[derive(Debug)]
pub struct Group {
    pub coordinates: Vec<Coord>,
}

impl View for Group {
    type V = Seq<Coord>;

    open spec fn view(&self) -> Seq<Coord> {
        self.coordinates@
    }
}

impl Clone for Group {
    fn clone(&self) -> (copy: Self)
        ensures
            copy@ == self@,
    {
        let coordinates = self.coordinates.clone();
        assert(coordinates@ =~= self.coordinates@);
        Group { coordinates }
    }
}

impl Group {
    pub fn new(coordinates: Vec<Coord>) -> (group: Self)
        ensures
            group@ == coordinates@,
    {
        Group { coordinates }
    }

    /// Whether `coord` is one of the positions of this group.
    pub fn contains_coord(&self, coord: &Coord) -> (found: bool)
        ensures
            found == self@.contains(*coord),
    {
        let mut i: usize = 0;
        while i < self.coordinates.len()
            invariant
                i <= self.coordinates.len(),
                forall|j: int| 0 <= j < i ==> self.coordinates@[j] != *coord,
            decreases self.coordinates.len() - i,
        {
            if self.coordinates[i] == *coord {
                return true;
            }
            i += 1;
        }
        false
    }
}

} // verus!
