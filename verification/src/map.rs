//! The terrain grid, with two layers that record what has been seen of it.

use vstd::prelude::*;
use crate::geometry::{cell_index, lemma_cell_index_bounds, on_grid, xy_idx, Coord};

verus! {

/// What a cell of the map is made of.
#[derive(Clone, Copy, Debug, PartialEq, Eq, Structural)]
pub enum TerrainType {
    /// Open ground: blocks neither sight nor movement.
    Land,
    /// Blocks movement; can be seen across.
    Water,
    /// Blocks line of sight.
    Mountain,
}

impl TerrainType {
    /// Sight stops at this terrain.
    pub open spec fn opaque(self) -> bool {
        self == TerrainType::Mountain
    }

    /// Nothing can move onto this terrain.
    pub open spec fn blocking(self) -> bool {
        self == TerrainType::Water
    }

    /// Whether sight stops at this terrain.
    pub fn blocks_sight(self) -> (r: bool)
        ensures
            r == self.opaque(),
    {
        self == TerrainType::Mountain
    }

    /// Whether nothing can move onto this terrain.
    pub fn blocks_movement(self) -> (r: bool)
        ensures
            r == self.blocking(),
    {
        self == TerrainType::Water
    }
}

/// A coordinate that the map does not hold.
#[derive(Clone, Copy, Debug, PartialEq, Eq, Structural)]
pub struct BoundsError {
    pub x: i32,
    pub y: i32,
}

/// The game world's map: terrain, and for each cell whether it was ever seen
/// (`terrain_known`) and whether it is in sight now (`terrain_visible`).
/// All three layers are row-major: the cell `(x, y)` is at `y * width + x`.
#[derive(Clone, Debug, PartialEq, Eq)]
pub struct TileMap {
    pub terrain: Vec<TerrainType>,
    pub width: i32,
    pub height: i32,
    pub terrain_known: Vec<bool>,
    pub terrain_visible: Vec<bool>,
}

/// The map as plain mathematical data.
pub struct TileMapView {
    pub terrain: Seq<TerrainType>,
    pub width: int,
    pub height: int,
    pub known: Seq<bool>,
    pub visible: Seq<bool>,
}

impl TileMapView {
    /// Whether `(x, y)` is a cell of the map.
    pub open spec fn holds(self, x: int, y: int) -> bool {
        on_grid(x, y, self.width, self.height)
    }

    /// The terrain at `(x, y)`.
    pub open spec fn terrain_at(self, x: int, y: int) -> TerrainType
        recommends
            self.holds(x, y),
    {
        self.terrain[cell_index(x, y, self.width)]
    }

    /// For each cell, whether sight stops there.
    pub open spec fn opacity(self) -> Seq<bool> {
        Seq::new(self.terrain.len(), |i: int| self.terrain[i].opaque())
    }
}

impl View for TileMap {
    type V = TileMapView;

    open spec fn view(&self) -> TileMapView {
        TileMapView {
            terrain: self.terrain@,
            width: self.width as int,
            height: self.height as int,
            known: self.terrain_known@,
            visible: self.terrain_visible@,
        }
    }
}

impl TileMap {
    /// The three layers have one cell for each tile, and whatever is in sight is known.
    pub open spec fn wf(&self) -> bool {
        &&& 0 <= self.width
        &&& 0 <= self.height
        &&& self.width * self.height <= i32::MAX
        &&& self.terrain@.len() == self.width * self.height
        &&& self.terrain_known@.len() == self.width * self.height
        &&& self.terrain_visible@.len() == self.width * self.height
        &&& forall|i: int|
            0 <= i < self.terrain_visible@.len() && self.terrain_visible@[i]
                ==> #[trigger] self.terrain_known@[i]
    }

    /// A map of one terrain throughout, of which nothing has been seen yet.
    pub fn filled(width: i32, height: i32, terrain: TerrainType) -> (map: TileMap)
        requires
            0 <= width,
            0 <= height,
            width * height <= i32::MAX,
        ensures
            map.wf(),
            map.width == width,
            map.height == height,
            forall|i: int| 0 <= i < width * height ==> map.terrain@[i] == terrain,
            forall|i: int| 0 <= i < width * height ==> !map.terrain_known@[i],
            forall|i: int| 0 <= i < width * height ==> !map.terrain_visible@[i],
    {
        assert(0 <= width * height) by (nonlinear_arith)
            requires
                0 <= width,
                0 <= height,
        ;
        let cells: usize = (width * height) as usize;
        let mut layer: Vec<TerrainType> = Vec::new();
        let mut known: Vec<bool> = Vec::new();
        let mut visible: Vec<bool> = Vec::new();
        let mut i: usize = 0;
        while i < cells
            invariant
                i <= cells,
                layer@.len() == i,
                known@.len() == i,
                visible@.len() == i,
                forall|j: int| 0 <= j < i ==> layer@[j] == terrain,
                forall|j: int| 0 <= j < i ==> !known@[j],
                forall|j: int| 0 <= j < i ==> !visible@[j],
            decreases cells - i,
        {
            layer.push(terrain);
            known.push(false);
            visible.push(false);
            i += 1;
        }
        TileMap { terrain: layer, width, height, terrain_known: known, terrain_visible: visible }
    }

    /// Whether `p` is a cell of the map.
    pub fn in_bounds(&self, p: Coord) -> (r: bool)
        ensures
            r == self@.holds(p.x as int, p.y as int),
    {
        0 <= p.x && p.x < self.width && 0 <= p.y && p.y < self.height
    }

    /// The place of `p` in the layers, or the bounds error for a `p` off the map.
    pub fn index_of(&self, p: Coord) -> (r: Result<usize, BoundsError>)
        requires
            self.wf(),
        ensures
            match r {
                Ok(i) => self@.holds(p.x as int, p.y as int) && i == cell_index(
                    p.x as int,
                    p.y as int,
                    self.width as int,
                ) && i < self.terrain@.len(),
                Err(e) => !self@.holds(p.x as int, p.y as int) && e == (BoundsError {
                    x: p.x,
                    y: p.y,
                }),
            },
    {
        if self.in_bounds(p) {
            proof {
                lemma_cell_index_bounds(
                    p.x as int,
                    p.y as int,
                    self.width as int,
                    self.height as int,
                );
            }
            Ok(xy_idx(p.x, p.y, self.width))
        } else {
            Err(BoundsError { x: p.x, y: p.y })
        }
    }

    /// Whether sight stops at the cell with index `idx`; false for an index off the map.
    pub fn opaque_at(&self, idx: usize) -> (r: bool)
        ensures
            r == (idx < self.terrain@.len() && self.terrain@[idx as int].opaque()),
    {
        idx < self.terrain.len() && self.terrain[idx].blocks_sight()
    }

    /// Writes `t` at `p`. A `p` off the map is refused and nothing changes.
    pub fn set_terrain(&mut self, p: Coord, t: TerrainType) -> (r: Result<(), BoundsError>)
        requires
            old(self).wf(),
        ensures
            final(self).wf(),
            old(self)@.holds(p.x as int, p.y as int) ==> r == Ok::<(), BoundsError>(())
                && final(self)@ == (TileMapView {
                terrain: old(self)@.terrain.update(
                    cell_index(p.x as int, p.y as int, old(self).width as int),
                    t,
                ),
                ..old(self)@
            }),
            !old(self)@.holds(p.x as int, p.y as int) ==> r == Err::<(), BoundsError>(
                BoundsError { x: p.x, y: p.y },
            ) && *final(self) == *old(self),
    {
        match self.index_of(p) {
            Ok(idx) => {
                self.terrain[idx] = t;
                assert(self@.terrain =~= old(self)@.terrain.update(idx as int, t));
                Ok(())
            },
            Err(e) => Err(e),
        }
    }
}

} // verus!
