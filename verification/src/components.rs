//! The components an entity can carry.

use vstd::prelude::*;
use crate::geometry::Coord;

verus! {

/// Marks the entity that the player steers.
#[derive(Clone, Copy, Debug, PartialEq, Eq, Structural)]
pub struct Cursor;

/// Where an entity stands on the grid.
#[derive(Clone, Copy, Debug, PartialEq, Eq, Structural)]
pub struct Position {
    pub x: i32,
    pub y: i32,
}

/// Marks an entity that drifts to the left.
#[derive(Clone, Copy, Debug, PartialEq, Eq, Structural)]
pub struct LeftMover;

/// The named colours that the kernel draws with.
#[derive(Clone, Copy, Debug, PartialEq, Eq, Structural)]
pub enum Color {
    Black,
    Blue,
    DarkGreen,
    Gray,
    Red,
    SaddleBrown,
    Yellow,
}

/// How an entity looks on screen.
#[derive(Clone, Copy, Debug, PartialEq, Eq, Structural)]
pub struct Renderable {
    pub glyph: char,
    pub fg: Color,
    pub bg: Color,
}

impl Default for Renderable {
    /// The null glyph, black on black.
    fn default() -> (r: Renderable)
        ensures
            r == (Renderable { glyph: '\0', fg: Color::Black, bg: Color::Black }),
    {
        Renderable { glyph: '\0', fg: Color::Black, bg: Color::Black }
    }
}

/// What an entity can see. `dirty` asks for a new field-of-view pass; `recalced`
/// says that a pass has run whose result the map has not taken in yet.
#[derive(Clone, Debug, PartialEq, Eq)]
pub struct Viewshed {
    pub visible_tiles: Vec<Coord>,
    pub range: i32,
    pub dirty: bool,
    pub recalced: bool,
}

/// A viewshed as plain mathematical data.
pub struct ViewshedView {
    pub visible_tiles: Seq<Coord>,
    pub range: i32,
    pub dirty: bool,
    pub recalced: bool,
}

impl View for Viewshed {
    type V = ViewshedView;

    open spec fn view(&self) -> ViewshedView {
        ViewshedView {
            visible_tiles: self.visible_tiles@,
            range: self.range,
            dirty: self.dirty,
            recalced: self.recalced,
        }
    }
}

impl Viewshed {
    /// A viewshed that has seen nothing yet and asks for its first pass.
    pub fn new(range: i32) -> (v: Viewshed)
        ensures
            v@ == (ViewshedView {
                visible_tiles: Seq::empty(),
                range,
                dirty: true,
                recalced: false,
            }),
    {
        Viewshed { visible_tiles: Vec::new(), range, dirty: true, recalced: false }
    }
}

} // verus!
