//! Supporting flat record types: layers, master pins, blockages, master
//! cells, cells and conflicts. They carry attributes and a display name; the
//! core algorithms do not depend on them.

use vstd::prelude::*;
use crate::geometry::CellType;
use crate::geometry::ConflictType;
use crate::geometry::Direction;
use crate::geometry::Pair;
use crate::naming::FactoryID;

verus! {

/// Some information about a layer of the routing grid.
#[derive(Clone, Debug)]
pub struct Layer {
    /// Layer id (starts from 0).
    pub id: usize,
    /// Horizontal or vertical.
    pub direction: Direction,
    /// Grid dimensions: rows by columns.
    pub dim: Pair,
    /// Capacity of every grid cell, row major.
    pub capacity: Vec<usize>,
}

impl Layer {
    /// The capacity of the cell at (row, col), or `None` when the flattened
    /// index falls outside the capacity vector.
    pub fn get_capacity(&self, row: usize, col: usize) -> (r: Option<usize>)
        ensures
            r == if row * self.dim.1 + col < self.capacity@.len() {
                Some(self.capacity@[row * self.dim.1 + col])
            } else {
                None::<usize>
            },
    {
        let len = self.capacity.len();
        match row.checked_mul(self.dim.1) {
            None => None,
            Some(base) => match base.checked_add(col) {
                None => None,
                Some(idx) => if idx < len {
                    Some(self.capacity[idx])
                } else {
                    None
                },
            },
        }
    }

    /// Overwrites the capacity of the cell at (row, col); returns false (and
    /// changes nothing) when the flattened index falls outside the vector.
    pub fn set_capacity(&mut self, row: usize, col: usize, val: usize) -> (r: bool)
        ensures
            r <==> row * old(self).dim.1 + col < old(self).capacity@.len(),
            r ==> final(self).capacity@ == old(self).capacity@.update(
                (row * old(self).dim.1 + col) as int,
                val,
            ),
            !r ==> *final(self) == *old(self),
            final(self).id == old(self).id,
            final(self).direction == old(self).direction,
            final(self).dim == old(self).dim,
    {
        let len = self.capacity.len();
        match row.checked_mul(self.dim.1) {
            None => false,
            Some(base) => match base.checked_add(col) {
                None => false,
                Some(idx) => if idx < len {
                    self.capacity[idx] = val;
                    true
                } else {
                    false
                },
            },
        }
    }
}

/// Some information about a master pin.
#[derive(Clone, Copy, Debug, Eq, Hash, PartialEq, Structural)]
pub struct MasterPin {
    /// Id of the pin.
    pub id: usize,
    /// Layer on which the pin sits.
    pub layer: usize,
}

/// Some information about a blockage.
#[derive(Clone, Copy, Debug, Eq, Hash, PartialEq, Structural)]
pub struct Blockage {
    /// Id of the blockage.
    pub id: usize,
    /// Layer on which the blockage sits.
    pub layer: usize,
    /// Extra demand the blockage costs.
    pub demand: usize,
}

/// Some information about a master cell.
#[derive(Clone, Debug)]
pub struct MasterCell {
    /// Id of the cell kind.
    pub id: usize,
    /// Its pins.
    pub pins: Vec<MasterPin>,
    /// Its blockages.
    pub blkgs: Vec<Blockage>,
}

/// Some information about a conflict, which happens when certain kinds of
/// master cells sit too close together.
#[derive(Clone, Copy, Debug, Eq, Hash, PartialEq, Structural)]
pub struct Conflict {
    /// Which flavour of proximity the conflict concerns.
    pub kind: ConflictType,
    /// The other cell kind's id.
    pub id: usize,
    /// On which layer.
    pub layer: usize,
    /// By how much demand.
    pub demand: usize,
}

/// Some information about a placed cell.
#[derive(Clone, Debug)]
pub struct Cell {
    /// Id of the cell.
    pub id: usize,
    /// Whether the cell can be moved.
    pub movable: CellType,
    /// Position on the grid.
    pub position: Pair,
    /// The master pins it instantiates.
    pub pins: Vec<usize>,
}

impl FactoryID for Layer {
    open spec fn spec_prefix() -> Seq<char> {
        seq!['M']
    }

    fn prefix() -> (r: &'static str) {
        proof {
            reveal_strlit("M");
        }
        "M"
    }
}

impl FactoryID for MasterPin {
    open spec fn spec_prefix() -> Seq<char> {
        seq!['P']
    }

    fn prefix() -> (r: &'static str) {
        proof {
            reveal_strlit("P");
        }
        "P"
    }
}

impl FactoryID for Blockage {
    open spec fn spec_prefix() -> Seq<char> {
        seq!['B']
    }

    fn prefix() -> (r: &'static str) {
        proof {
            reveal_strlit("B");
        }
        "B"
    }
}

impl FactoryID for MasterCell {
    open spec fn spec_prefix() -> Seq<char> {
        seq!['M', 'C']
    }

    fn prefix() -> (r: &'static str) {
        proof {
            reveal_strlit("MC");
        }
        "MC"
    }
}

impl FactoryID for Cell {
    open spec fn spec_prefix() -> Seq<char> {
        seq!['C']
    }

    fn prefix() -> (r: &'static str) {
        proof {
            reveal_strlit("C");
        }
        "C"
    }
}

} // verus!
