//! The entities a game starts with.

use vstd::prelude::*;
use crate::components::{Color, Cursor, LeftMover, Position, Renderable, Viewshed, ViewshedView};
use crate::generation::{spawn_point, spawn_x, spawn_y};
use crate::map::TileMap;
use crate::world::{Entity, EntityView, World};

verus! {

/// How far the cursor sees.
pub const CURSOR_RANGE: i32 = 8;

/// How many wanderers a game starts with.
pub const NPC_COUNT: i32 = 8;

/// The cursor as it is spawned: on the spawn cell, with a viewshed that has
/// seen nothing and asks for its first pass.
pub open spec fn cursor_at_start(width: int, height: int) -> EntityView {
    EntityView {
        position: Some(Position { x: spawn_x(width) as i32, y: spawn_y(height) as i32 }),
        renderable: None,
        viewshed: Some(
            ViewshedView {
                visible_tiles: Seq::empty(),
                range: CURSOR_RANGE,
                dirty: true,
                recalced: false,
            },
        ),
        cursor: true,
        left_mover: false,
    }
}

/// The player as it is spawned: on the spawn cell, drawn as a yellow `@`.
pub open spec fn player_at_start(width: int, height: int) -> EntityView {
    EntityView {
        position: Some(Position { x: spawn_x(width) as i32, y: spawn_y(height) as i32 }),
        renderable: Some(Renderable { glyph: '@', fg: Color::Yellow, bg: Color::Black }),
        viewshed: None,
        cursor: true,
        left_mover: false,
    }
}

/// The `i`-th wanderer as it is spawned: on row 25, ten columns from the next,
/// drawn as a red face.
pub open spec fn npc_at_start(i: int) -> EntityView {
    EntityView {
        position: Some(Position { x: (i * 10 + 5) as i32, y: 25 }),
        renderable: Some(Renderable { glyph: '\u{263A}', fg: Color::Red, bg: Color::Black }),
        viewshed: None,
        cursor: false,
        left_mover: true,
    }
}

/// Spawns the cursor on the map's spawn cell and returns its id.
pub fn add_cursor(world: &mut World, map: &TileMap) -> (id: usize)
    requires
        map.wf(),
    ensures
        id == old(world)@.len(),
        final(world)@ == old(world)@.push(cursor_at_start(map@.width, map@.height)),
{
    let at = spawn_point(map.width, map.height);
    world.spawn(
        Entity {
            position: Some(Position { x: at.x, y: at.y }),
            renderable: None,
            viewshed: Some(Viewshed::new(CURSOR_RANGE)),
            cursor: Some(Cursor),
            left_mover: None,
        },
    )
}

/// Spawns the player on the map's spawn cell and returns its id.
pub fn add_player(world: &mut World, map: &TileMap) -> (id: usize)
    requires
        map.wf(),
    ensures
        id == old(world)@.len(),
        final(world)@ == old(world)@.push(player_at_start(map@.width, map@.height)),
{
    let at = spawn_point(map.width, map.height);
    world.spawn(
        Entity {
            position: Some(Position { x: at.x, y: at.y }),
            renderable: Some(Renderable { glyph: '@', fg: Color::Yellow, bg: Color::Black }),
            viewshed: None,
            cursor: Some(Cursor),
            left_mover: None,
        },
    )
}

/// Spawns the wanderers, in rising order of column.
pub fn add_npcs(world: &mut World)
    ensures
        final(world)@ == old(world)@ + Seq::new(NPC_COUNT as nat, |i: int| npc_at_start(i)),
{
    let mut i: i32 = 0;
    assert(world@ =~= old(world)@ + Seq::new(0, |i: int| npc_at_start(i)));
    while i < NPC_COUNT
        invariant
            0 <= i <= NPC_COUNT,
            world@ == old(world)@ + Seq::new(i as nat, |i: int| npc_at_start(i)),
        decreases NPC_COUNT - i,
    {
        world.spawn(
            Entity {
                position: Some(Position { x: i * 10 + 5, y: 25 }),
                renderable: Some(
                    Renderable { glyph: '\u{263A}', fg: Color::Red, bg: Color::Black },
                ),
                viewshed: None,
                cursor: None,
                left_mover: Some(LeftMover),
            },
        );
        assert(world@ =~= old(world)@ + Seq::new((i + 1) as nat, |i: int| npc_at_start(i)));
        i += 1;
    }
}

} // verus!
