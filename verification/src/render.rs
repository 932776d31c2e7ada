//! What a tick asks the renderer to do, as a list of drawing operations.

use vstd::prelude::*;
use crate::components::Color;
use crate::geometry::{cell_index, lemma_cell_index_bounds, scan_grid, scan_row};
use crate::map::{TerrainType, TileMap, TileMapView};
use crate::world::{EntityView, World};

verus! {

/// One request to the renderer.
#[derive(Clone, Copy, Debug, PartialEq, Eq, Structural)]
pub enum DrawOp {
    /// Clear the screen.
    Clear,
    /// Draw a glyph in two colours at a cell; `greyscale` asks for the
    /// desaturated variant of both colours.
    Cell { x: i32, y: i32, fg: Color, bg: Color, glyph: char, greyscale: bool },
    /// Change only the background colour of a cell.
    Background { x: i32, y: i32, bg: Color },
}

/// How a terrain is drawn: foreground, background and glyph.
pub open spec fn terrain_style(t: TerrainType) -> (Color, Color, char) {
    match t {
        TerrainType::Land => (Color::DarkGreen, Color::Black, '.'),
        TerrainType::Water => (Color::Blue, Color::Blue, '~'),
        TerrainType::Mountain => (Color::Black, Color::SaddleBrown, 'M'),
    }
}

/// What is drawn for the cell `(x, y)`: nothing while it is unknown, its terrain
/// in full colour while in sight, and in greyscale once out of sight.
pub open spec fn map_cell(map: TileMapView, x: int, y: int) -> Option<DrawOp> {
    let i = cell_index(x, y, map.width);
    if map.known[i] {
        let style = terrain_style(map.terrain[i]);
        Some(
            DrawOp::Cell {
                x: x as i32,
                y: y as i32,
                fg: style.0,
                bg: style.1,
                glyph: style.2,
                greyscale: !map.visible[i],
            },
        )
    } else {
        None
    }
}

/// The drawing operations for the whole map, row by row.
pub open spec fn map_ops(map: TileMapView) -> Seq<DrawOp> {
    scan_grid(map.width, map.height, |x: int, y: int| map_cell(map, x, y))
}

/// What is drawn for one entity: its glyph where it stands, if it has both a
/// position and an appearance.
pub open spec fn entity_ops(e: EntityView) -> Seq<DrawOp> {
    if e.position is Some && e.renderable is Some {
        seq![
            DrawOp::Cell {
                x: e.position->0.x,
                y: e.position->0.y,
                fg: e.renderable->0.fg,
                bg: e.renderable->0.bg,
                glyph: e.renderable->0.glyph,
                greyscale: false,
            },
        ]
    } else {
        Seq::empty()
    }
}

/// The drawing operations of the first `upto` entities, each given by `ops`, in
/// the order of spawning.
pub open spec fn world_ops(
    world: Seq<EntityView>,
    upto: int,
    ops: spec_fn(EntityView) -> Seq<DrawOp>,
) -> Seq<DrawOp>
    decreases upto,
{
    if upto <= 0 {
        Seq::empty()
    } else {
        world_ops(world, upto - 1, ops) + ops(world[upto - 1])
    }
}

/// The highlight of one player-controlled entity: a yellow background on the
/// four edge cells in line with it, and on its own cell.
pub open spec fn cursor_ops(e: EntityView, width: int, height: int) -> Seq<DrawOp> {
    if e.cursor && e.position is Some {
        let p = e.position->0;
        seq![
            DrawOp::Background { x: p.x, y: 0, bg: Color::Yellow },
            DrawOp::Background { x: p.x, y: (height - 1) as i32, bg: Color::Yellow },
            DrawOp::Background { x: 0, y: p.y, bg: Color::Yellow },
            DrawOp::Background { x: (width - 1) as i32, y: p.y, bg: Color::Yellow },
            DrawOp::Background { x: p.x, y: p.y, bg: Color::Yellow },
        ]
    } else {
        Seq::empty()
    }
}

/// How a terrain is drawn: foreground, background and glyph.
pub fn style_of(t: TerrainType) -> (style: (Color, Color, char))
    ensures
        style == terrain_style(t),
{
    match t {
        TerrainType::Land => (Color::DarkGreen, Color::Black, '.'),
        TerrainType::Water => (Color::Blue, Color::Blue, '~'),
        TerrainType::Mountain => (Color::Black, Color::SaddleBrown, 'M'),
    }
}

/// Asks for a cleared screen.
pub fn cls(frame: &mut Vec<DrawOp>)
    ensures
        final(frame)@ == old(frame)@.push(DrawOp::Clear),
{
    frame.push(DrawOp::Clear);
}

/// Draws the part of the map that has been seen: every known cell, row by row.
pub fn draw_map(frame: &mut Vec<DrawOp>, map: &TileMap)
    requires
        map.wf(),
    ensures
        final(frame)@ == old(frame)@ + map_ops(map@),
{
    let ghost pick = |x: int, y: int| map_cell(map@, x, y);
    let mut y: i32 = 0;
    assert(frame@ =~= old(frame)@ + scan_grid(map@.width, 0, pick));
    while y < map.height
        invariant
            map.wf(),
            0 <= y <= map.height,
            pick == (|x: int, y: int| map_cell(map@, x, y)),
            frame@ == old(frame)@ + scan_grid(map@.width, y as int, pick),
        decreases map.height - y,
    {
        let mut x: i32 = 0;
        assert(frame@ =~= old(frame)@ + scan_grid(map@.width, y as int, pick) + scan_row(
            y as int,
            0,
            pick,
        ));
        while x < map.width
            invariant
                map.wf(),
                0 <= y < map.height,
                0 <= x <= map.width,
                pick == (|x: int, y: int| map_cell(map@, x, y)),
                frame@ == old(frame)@ + scan_grid(map@.width, y as int, pick) + scan_row(
                    y as int,
                    x as int,
                    pick,
                ),
            decreases map.width - x,
        {
            proof {
                lemma_cell_index_bounds(x as int, y as int, map@.width, map@.height);
            }
            let i: usize = (y * map.width + x) as usize;
            if map.terrain_known[i] {
                let style = style_of(map.terrain[i]);
                frame.push(
                    DrawOp::Cell {
                        x,
                        y,
                        fg: style.0,
                        bg: style.1,
                        glyph: style.2,
                        greyscale: !map.terrain_visible[i],
                    },
                );
            }
            assert(frame@ =~= old(frame)@ + scan_grid(map@.width, y as int, pick) + scan_row(
                y as int,
                x + 1,
                pick,
            ));
            x += 1;
        }
        assert(frame@ =~= old(frame)@ + scan_grid(map@.width, y + 1, pick));
        y += 1;
    }
}

/// Draws every entity that has a position and an appearance, in the order of
/// spawning.
pub fn draw_things(frame: &mut Vec<DrawOp>, world: &World)
    ensures
        final(frame)@ == old(frame)@ + world_ops(
            world@,
            world@.len() as int,
            |e: EntityView| entity_ops(e),
        ),
{
    let ghost ops = |e: EntityView| entity_ops(e);
    let mut i: usize = 0;
    assert(frame@ =~= old(frame)@ + world_ops(world@, 0, ops));
    while i < world.entities.len()
        invariant
            i <= world.entities@.len(),
            ops == (|e: EntityView| entity_ops(e)),
            frame@ == old(frame)@ + world_ops(world@, i as int, ops),
        decreases world.entities@.len() - i,
    {
        let e = &world.entities[i];
        match (e.position, e.renderable) {
            (Some(p), Some(r)) => {
                frame.push(
                    DrawOp::Cell {
                        x: p.x,
                        y: p.y,
                        fg: r.fg,
                        bg: r.bg,
                        glyph: r.glyph,
                        greyscale: false,
                    },
                );
            },
            _ => {},
        }
        assert(frame@ =~= old(frame)@ + world_ops(world@, i + 1, ops));
        i += 1;
    }
}

/// Highlights every player-controlled entity that has a position: the edge
/// cells in line with it, and its own cell, get a yellow background.
pub fn draw_cursor(frame: &mut Vec<DrawOp>, world: &World, map: &TileMap)
    requires
        map.wf(),
    ensures
        final(frame)@ == old(frame)@ + world_ops(
            world@,
            world@.len() as int,
            |e: EntityView| cursor_ops(e, map@.width, map@.height),
        ),
{
    let ghost ops = |e: EntityView| cursor_ops(e, map@.width, map@.height);
    let mut i: usize = 0;
    assert(frame@ =~= old(frame)@ + world_ops(world@, 0, ops));
    while i < world.entities.len()
        invariant
            map.wf(),
            i <= world.entities@.len(),
            ops == (|e: EntityView| cursor_ops(e, map@.width, map@.height)),
            frame@ == old(frame)@ + world_ops(world@, i as int, ops),
        decreases world.entities@.len() - i,
    {
        let e = &world.entities[i];
        if e.cursor.is_some() {
            match e.position {
                Some(p) => {
                    frame.push(DrawOp::Background { x: p.x, y: 0, bg: Color::Yellow });
                    frame.push(
                        DrawOp::Background { x: p.x, y: map.height - 1, bg: Color::Yellow },
                    );
                    frame.push(DrawOp::Background { x: 0, y: p.y, bg: Color::Yellow });
                    frame.push(
                        DrawOp::Background { x: map.width - 1, y: p.y, bg: Color::Yellow },
                    );
                    frame.push(DrawOp::Background { x: p.x, y: p.y, bg: Color::Yellow });
                },
                None => {},
            }
        }
        assert(frame@ =~= old(frame)@ + world_ops(world@, i + 1, ops));
        i += 1;
    }
}

} // verus!
