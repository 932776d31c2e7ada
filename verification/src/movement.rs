//! How entities change place: a step that water blocks and that may not leave
//! the map, the toroidal wrap, and the drift of wanderers. Every change of place marks the entity's
//! viewshed as stale.

use vstd::prelude::*;
use bracket_lib::prelude::RandomNumberGenerator;
use crate::components::{Position, ViewshedView};
use crate::geometry::{on_grid, Coord};
use crate::keys::Command;
use crate::map::{BoundsError, TerrainType, TileMap, TileMapView};
use crate::world::{Entity, EntityView, World};

verus! {

/// The entity after it was put at `to`: if that is a new place, its viewshed,
/// if it has one, is marked dirty.
pub open spec fn relocated(e: EntityView, to: Position) -> EntityView {
    if e.position == Some(to) {
        e
    } else {
        EntityView {
            position: Some(to),
            viewshed: match e.viewshed {
                Some(v) => Some(ViewshedView { dirty: true, ..v }),
                None => None,
            },
            ..e
        }
    }
}

/// A coordinate as the nearest number that a position can hold.
pub open spec fn clip(v: int) -> i32 {
    if v < i32::MIN {
        i32::MIN
    } else if v > i32::MAX {
        i32::MAX
    } else {
        v as i32
    }
}

/// The destination that a step of `(dx, dy)` from `p` proposes. A destination
/// past the numbers that a position can hold is clipped to the last of them,
/// which lies off every map.
pub open spec fn destination(p: Position, dx: int, dy: int) -> Coord {
    Coord { x: clip(p.x + dx), y: clip(p.y + dy) }
}

/// Where a step of `(dx, dy)` from `p` ends when its destination is a cell of
/// the map: at the destination, unless that cell is water, which blocks.
pub open spec fn step_from(map: TileMapView, p: Position, dx: int, dy: int) -> Position
    recommends
        map.holds(destination(p, dx, dy).x as int, destination(p, dx, dy).y as int),
{
    let to = destination(p, dx, dy);
    if map.terrain_at(to.x as int, to.y as int).blocking() {
        p
    } else {
        Position { x: to.x, y: to.y }
    }
}

/// The entity takes a step under the command: the command is a move, and the
/// entity is player-controlled and has a position.
pub open spec fn steps(e: EntityView, command: Command) -> bool {
    command is Move && e.cursor && e.position is Some
}

/// The entity would step off the map: it takes a step and the destination is
/// no cell of the map, so that there is no terrain to look up.
pub open spec fn astray(e: EntityView, map: TileMapView, command: Command) -> bool {
    steps(e, command) && !map.holds(
        destination(e.position->0, command.delta().0, command.delta().1).x as int,
        destination(e.position->0, command.delta().0, command.delta().1).y as int,
    )
}

/// `i` is the id of the first entity that would step off the map.
pub open spec fn first_astray(
    world: Seq<EntityView>,
    map: TileMapView,
    command: Command,
    i: int,
) -> bool {
    &&& 0 <= i < world.len()
    &&& astray(world[i], map, command)
    &&& forall|j: int| 0 <= j < i ==> !astray(#[trigger] world[j], map, command)
}

/// The entity after the player's command: an entity that takes a step ends
/// where the step ends, and every other entity is as it was.
pub open spec fn stepped(e: EntityView, map: TileMapView, command: Command) -> EntityView {
    if steps(e, command) {
        relocated(e, step_from(map, e.position->0, command.delta().0, command.delta().1))
    } else {
        e
    }
}

/// One coordinate after the wrap: a value below 0 gains the grid's size once, a
/// value past the last cell loses it once.
pub open spec fn wrapped_coord(v: int, size: int) -> int {
    if v < 0 {
        v + size
    } else if v > size - 1 {
        v - size
    } else {
        v
    }
}

/// A position after the wrap.
pub open spec fn wrapped(p: Position, width: int, height: int) -> Position {
    Position {
        x: wrapped_coord(p.x as int, width) as i32,
        y: wrapped_coord(p.y as int, height) as i32,
    }
}

/// The entity after the wrap pass.
pub open spec fn wrapped_entity(e: EntityView, width: int, height: int) -> EntityView {
    if e.position is Some {
        relocated(e, wrapped(e.position->0, width, height))
    } else {
        e
    }
}

/// The entity after the drift: a wanderer with a position whose ten-sided die
/// shows 1 goes one cell left.
pub open spec fn drifted(e: EntityView, roll: int) -> EntityView {
    if e.left_mover && e.position is Some && roll == 1 && e.position->0.x > i32::MIN {
        relocated(e, Position { x: (e.position->0.x - 1) as i32, y: e.position->0.y })
    } else {
        e
    }
}

/// The wrap leaves a position on the grid where it is.
pub proof fn lemma_wrap_keeps_what_is_inside(p: Position, width: int, height: int)
    requires
        on_grid(p.x as int, p.y as int, width, height),
    ensures
        wrapped(p, width, height) == p,
{
}

/// The wrap brings a position back onto the grid if it is less than one grid
/// size off it.
pub proof fn lemma_wrap_brings_back(p: Position, width: int, height: int)
    requires
        0 < width <= i32::MAX,
        0 < height <= i32::MAX,
        -width <= p.x < 2 * width,
        -height <= p.y < 2 * height,
    ensures
        on_grid(
            wrapped(p, width, height).x as int,
            wrapped(p, width, height).y as int,
            width,
            height,
        ),
        wrapped(wrapped(p, width, height), width, height) == wrapped(p, width, height),
{
}

/// The wrap pass changes nothing of an entity that stands on the grid.
pub proof fn lemma_wrap_pass_keeps_what_is_inside(e: EntityView, width: int, height: int)
    requires
        e.position is Some ==> on_grid(
            e.position->0.x as int,
            e.position->0.y as int,
            width,
            height,
        ),
    ensures
        wrapped_entity(e, width, height) == e,
{
}

/// Water blocks: a move onto a water cell leaves the entity as it was.
pub proof fn lemma_water_blocks(e: EntityView, map: TileMapView, dx: i32, dy: i32)
    requires
        e.position is Some,
        map.holds(e.position->0.x + dx, e.position->0.y + dy),
        0 <= map.width <= i32::MAX,
        0 <= map.height <= i32::MAX,
        map.terrain_at(e.position->0.x + dx, e.position->0.y + dy) == TerrainType::Water,
    ensures
        stepped(e, map, Command::Move { dx, dy }) == e,
{
}

/// A move of a player-controlled entity onto a cell that is not water takes
/// it there, and marks its viewshed dirty if the cell is a new place.
pub proof fn lemma_open_cell_is_entered(e: EntityView, map: TileMapView, dx: i32, dy: i32)
    requires
        e.cursor,
        e.position is Some,
        map.holds(e.position->0.x + dx, e.position->0.y + dy),
        0 <= map.width <= i32::MAX,
        0 <= map.height <= i32::MAX,
        map.terrain_at(e.position->0.x + dx, e.position->0.y + dy) != TerrainType::Water,
    ensures
        stepped(e, map, Command::Move { dx, dy }).position == Some(
            Position { x: (e.position->0.x + dx) as i32, y: (e.position->0.y + dy) as i32 },
        ),
        (dx != 0 || dy != 0) && e.viewshed is Some ==> stepped(
            e,
            map,
            Command::Move { dx, dy },
        ).viewshed is Some && stepped(e, map, Command::Move { dx, dy }).viewshed->0.dirty,
        stepped(e, map, Command::Move { dx, dy }).renderable == e.renderable,
        stepped(e, map, Command::Move { dx, dy }).cursor,
        stepped(e, map, Command::Move { dx, dy }).left_mover == e.left_mover,
{
}

/// A move whose destination is no cell of the map is refused, wherever the
/// entity stands: there is no terrain to look up there.
pub proof fn lemma_step_off_the_map_is_astray(e: EntityView, map: TileMapView, dx: i32, dy: i32)
    requires
        e.cursor,
        e.position is Some,
        0 <= map.width <= i32::MAX,
        0 <= map.height <= i32::MAX,
        !map.holds(e.position->0.x + dx, e.position->0.y + dy),
    ensures
        astray(e, map, Command::Move { dx, dy }),
{
}

/// No command but a move, and no entity but a player-controlled one with a
/// position, leads to a look at the terrain.
pub proof fn lemma_only_steps_go_astray(e: EntityView, map: TileMapView, command: Command)
    requires
        astray(e, map, command),
    ensures
        command is Move,
        e.cursor,
        e.position is Some,
        stepped(e, map, Command::Idle) == e,
        stepped(e, map, Command::Quit) == e,
{
}

/// A step that is not refused ends on a cell of the map.
pub proof fn lemma_step_ends_on_the_map(e: EntityView, map: TileMapView, command: Command)
    requires
        steps(e, command),
        !astray(e, map, command),
        map.holds(e.position->0.x as int, e.position->0.y as int),
    ensures
        stepped(e, map, command).position is Some,
        map.holds(
            stepped(e, map, command).position->0.x as int,
            stepped(e, map, command).position->0.y as int,
        ),
{
}

impl Entity {
    /// Puts the entity at `to`; a new place marks its viewshed dirty.
    pub fn relocate(&mut self, to: Position)
        ensures
            final(self)@ == relocated(old(self)@, to),
    {
        let moved = match self.position {
            Some(p) => p.x != to.x || p.y != to.y,
            None => true,
        };
        if moved {
            self.position = Some(to);
            match &mut self.viewshed {
                Some(v) => {
                    v.dirty = true;
                },
                None => {},
            }
        }
    }
}

/// The destination that a step of `(dx, dy)` from `p` proposes.
pub fn destination_of(p: Position, dx: i32, dy: i32) -> (to: Coord)
    ensures
        to == destination(p, dx as int, dy as int),
{
    let x: i64 = p.x as i64 + dx as i64;
    let y: i64 = p.y as i64 + dy as i64;
    let low: i64 = i32::MIN as i64;
    let high: i64 = i32::MAX as i64;
    Coord {
        x: if x < low {
            i32::MIN
        } else if x > high {
            i32::MAX
        } else {
            x as i32
        },
        y: if y < low {
            i32::MIN
        } else if y > high {
            i32::MAX
        } else {
            y as i32
        },
    }
}

/// Where a step of `(dx, dy)` from `p` ends on `map`: at the destination, or
/// at `p` if the destination is water. A destination off the map is refused
/// with the bounds error for it.
pub fn step(map: &TileMap, p: Position, dx: i32, dy: i32) -> (r: Result<Position, BoundsError>)
    requires
        map.wf(),
    ensures
        match r {
            Ok(q) => map@.holds(
                destination(p, dx as int, dy as int).x as int,
                destination(p, dx as int, dy as int).y as int,
            ) && q == step_from(map@, p, dx as int, dy as int),
            Err(e) => !map@.holds(
                destination(p, dx as int, dy as int).x as int,
                destination(p, dx as int, dy as int).y as int,
            ) && e == (BoundsError {
                x: destination(p, dx as int, dy as int).x,
                y: destination(p, dx as int, dy as int).y,
            }),
        },
{
    let to = destination_of(p, dx, dy);
    match map.index_of(to) {
        Ok(i) => {
            if map.terrain[i].blocks_movement() {
                Ok(p)
            } else {
                Ok(Position { x: to.x, y: to.y })
            }
        },
        Err(e) => Err(e),
    }
}

/// A position after the wrap on a grid of `width` by `height`.
pub fn wrap(p: Position, width: i32, height: i32) -> (q: Position)
    requires
        0 <= width,
        0 <= height,
    ensures
        q == wrapped(p, width as int, height as int),
{
    let mut q = p;
    if q.x < 0 {
        q.x += width;
    }
    if q.x > width - 1 {
        q.x -= width;
    }
    if q.y < 0 {
        q.y += height;
    }
    if q.y > height - 1 {
        q.y -= height;
    }
    q
}

/// Applies the player's command. Under a move, every player-controlled entity
/// with a position proposes its destination and goes there unless the
/// destination is water; any other command moves nothing. Returns whether the
/// command asks to quit. If a destination is off the map the command is
/// refused, with the destination of the first such entity, and nothing changes.
pub fn handle_input(world: &mut World, map: &TileMap, command: Command) -> (r: Result<
    bool,
    BoundsError,
>)
    requires
        map.wf(),
    ensures
        match r {
            Ok(quit) => {
                &&& quit == (command == Command::Quit)
                &&& forall|i: int| 0 <= i < old(world)@.len() ==> !astray(
                    #[trigger] old(world)@[i],
                    map@,
                    command,
                )
                &&& final(world)@ == old(world)@.map_values(
                    |e: EntityView| stepped(e, map@, command),
                )
            },
            Err(e) => *final(world) == *old(world) && exists|i: int|
                first_astray(old(world)@, map@, command, i) && e == (BoundsError {
                    x: destination(
                        old(world)@[i].position->0,
                        command.delta().0,
                        command.delta().1,
                    ).x,
                    y: destination(
                        old(world)@[i].position->0,
                        command.delta().0,
                        command.delta().1,
                    ).y,
                }),
        },
{
    let (dx, dy) = match command {
        Command::Move { dx, dy } => (dx, dy),
        Command::Quit => {
            assert(world@ =~= old(world)@.map_values(|e: EntityView| stepped(e, map@, command)));
            return Ok(true);
        },
        Command::Idle => {
            assert(world@ =~= old(world)@.map_values(|e: EntityView| stepped(e, map@, command)));
            return Ok(false);
        },
    };
    let mut n: usize = 0;
    while n < world.entities.len()
        invariant
            map.wf(),
            n <= world.entities@.len(),
            *world == *old(world),
            command == (Command::Move { dx, dy }),
            forall|j: int| 0 <= j < n ==> !astray(#[trigger] world@[j], map@, command),
        decreases world.entities@.len() - n,
    {
        if world.entities[n].cursor.is_some() {
            match world.entities[n].position {
                Some(p) => {
                    let to = destination_of(p, dx, dy);
                    if !map.in_bounds(to) {
                        assert(first_astray(world@, map@, command, n as int));
                        return Err(BoundsError { x: to.x, y: to.y });
                    }
                },
                None => {},
            }
        }
        n += 1;
    }
    let ghost after = |e: EntityView| stepped(e, map@, command);
    let mut i: usize = 0;
    while i < world.entities.len()
        invariant
            map.wf(),
            i <= world.entities@.len(),
            world.entities@.len() == old(world).entities@.len(),
            command == (Command::Move { dx, dy }),
            after == (|e: EntityView| stepped(e, map@, command)),
            forall|j: int|
                0 <= j < old(world)@.len() ==> !astray(#[trigger] old(world)@[j], map@, command),
            forall|j: int| 0 <= j < i ==> #[trigger] world@[j] == after(old(world)@[j]),
            forall|j: int|
                i <= j < world.entities@.len() ==> #[trigger] world@[j] == old(world)@[j],
        decreases world.entities@.len() - i,
    {
        let ghost before = world@;
        assert(!astray(old(world)@[i as int], map@, command));
        assert(before[i as int] == old(world)@[i as int]);
        if world.entities[i].cursor.is_some() {
            match world.entities[i].position {
                Some(p) => {
                    match step(map, p, dx, dy) {
                        Ok(q) => {
                            world.entities[i].relocate(q);
                        },
                        Err(e) => {
                            assert(false);
                            return Err(e);
                        },
                    }
                },
                None => {},
            }
        }
        assert forall|j: int| 0 <= j < world.entities@.len() implies #[trigger] world@[j] == (if j
            == i {
            after(before[j])
        } else {
            before[j]
        }) by {}
        i += 1;
    }
    assert(world@ =~= old(world)@.map_values(after));
    Ok(false)
}

/// Brings every entity that has left the grid back in on the opposite side.
pub fn wrap_position(world: &mut World, map: &TileMap)
    requires
        map.wf(),
    ensures
        final(world)@ == old(world)@.map_values(
            |e: EntityView| wrapped_entity(e, map@.width, map@.height),
        ),
{
    let ghost after = |e: EntityView| wrapped_entity(e, map@.width, map@.height);
    let mut i: usize = 0;
    while i < world.entities.len()
        invariant
            map.wf(),
            i <= world.entities@.len(),
            world.entities@.len() == old(world).entities@.len(),
            after == (|e: EntityView| wrapped_entity(e, map@.width, map@.height)),
            forall|j: int| 0 <= j < i ==> #[trigger] world@[j] == after(old(world)@[j]),
            forall|j: int|
                i <= j < world.entities@.len() ==> #[trigger] world@[j] == old(world)@[j],
        decreases world.entities@.len() - i,
    {
        let ghost before = world@;
        match world.entities[i].position {
            Some(p) => {
                let q = wrap(p, map.width, map.height);
                world.entities[i].relocate(q);
            },
            None => {},
        }
        assert forall|j: int| 0 <= j < world.entities@.len() implies #[trigger] world@[j] == (if j
            == i {
            after(before[j])
        } else {
            before[j]
        }) by {}
        i += 1;
    }
    assert(world@ =~= old(world)@.map_values(after));
}

/// `after` is what the wandering pass makes of `before` when the die rolled for
/// the entity `i` shows `rolls[i]`.
pub open spec fn drift_outcome(
    before: Seq<EntityView>,
    after: Seq<EntityView>,
    rolls: Seq<int>,
) -> bool {
    &&& rolls.len() == before.len()
    &&& forall|i: int| 0 <= i < rolls.len() ==> 1 <= #[trigger] rolls[i] <= DRIFT_DIE
    &&& after == Seq::new(before.len(), |i: int| drifted(before[i], rolls[i]))
}

/// The sides of the die that decides whether a wanderer drifts this tick.
pub const DRIFT_DIE: i32 = 10;

/// Moves the entity as the drift rule says for a die that shows `roll`.
pub fn drift(entity: &mut Entity, roll: i32)
    ensures
        final(entity)@ == drifted(old(entity)@, roll as int),
{
    if entity.left_mover.is_some() && roll == 1 {
        match entity.position {
            Some(p) => {
                if p.x > i32::MIN {
                    entity.relocate(Position { x: p.x - 1, y: p.y });
                }
            },
            None => {},
        }
    }
}

/// The wandering pass: a ten-sided die is rolled for every wanderer that has a
/// position, and those whose die shows 1 go one cell left.
pub fn move_left(world: &mut World, rng: &mut RandomNumberGenerator)
    ensures
        exists|rolls: Seq<int>| #[trigger] drift_outcome(old(world)@, final(world)@, rolls),
{
    let ghost mut rolls: Seq<int> = Seq::empty();
    let mut i: usize = 0;
    while i < world.entities.len()
        invariant
            i <= world.entities@.len(),
            world.entities@.len() == old(world).entities@.len(),
            rolls.len() == i,
            forall|j: int| 0 <= j < i ==> 1 <= #[trigger] rolls[j] <= DRIFT_DIE,
            forall|j: int|
                0 <= j < i ==> #[trigger] world@[j] == drifted(old(world)@[j], rolls[j]),
            forall|j: int|
                i <= j < world.entities@.len() ==> #[trigger] world@[j] == old(world)@[j],
        decreases world.entities@.len() - i,
    {
        let ghost before = world@;
        let ghost so_far = rolls;
        if world.entities[i].left_mover.is_some() && world.entities[i].position.is_some() {
            let roll: i32 = rng.roll_dice(1, DRIFT_DIE);
            drift(&mut world.entities[i], roll);
            proof {
                rolls = rolls.push(roll as int);
            }
        } else {
            proof {
                rolls = rolls.push(2);
            }
        }
        assert forall|j: int| 0 <= j < world.entities@.len() implies #[trigger] world@[j] == (if j
            == i {
            drifted(before[j], rolls[j])
        } else {
            before[j]
        }) by {}
        assert(forall|j: int| 0 <= j < i ==> rolls[j] == so_far[j]);
        i += 1;
    }
    assert(world@ =~= Seq::new(old(world)@.len(), |i: int| drifted(old(world)@[i], rolls[i])));
    assert(drift_outcome(old(world)@, world@, rolls));
}

} // verus!
