//! Keeping viewsheds and the map's knowledge up to date: stale viewsheds are
//! recomputed, and what a recalculated viewshed holds is merged into the map.

use vstd::prelude::*;
use crate::components::ViewshedView;
use crate::fov::{compute_visible, mark_layer, marks, tile_set, tiles_of, visible_from};
use crate::geometry::Coord;
use crate::map::{BoundsError, TileMap, TileMapView};
use crate::world::{EntityView, World};

verus! {

/// An entity whose viewshed is due for a new pass: it has a position and a
/// dirty viewshed.
pub open spec fn stale(e: EntityView) -> bool {
    e.position is Some && e.viewshed is Some && e.viewshed->0.dirty
}

/// A stale entity that stands off the map, so that no pass can be made for it.
pub open spec fn lost(e: EntityView, map: TileMapView) -> bool {
    stale(e) && !map.holds(e.position->0.x as int, e.position->0.y as int)
}

/// The entity after the field-of-view pass: a stale viewshed holds what is in
/// sight from the entity's position, is clean, and is flagged as recalculated.
pub open spec fn refreshed(e: EntityView, map: TileMapView) -> EntityView {
    if stale(e) {
        EntityView {
            viewshed: Some(
                ViewshedView {
                    visible_tiles: tiles_of(
                        visible_from(
                            map,
                            e.position->0.x as int,
                            e.position->0.y as int,
                            e.viewshed->0.range as int,
                        ),
                        map.width,
                        map.height,
                    ),
                    range: e.viewshed->0.range,
                    dirty: false,
                    recalced: true,
                },
            ),
            ..e
        }
    } else {
        e
    }
}

/// `k` is the place of the first tile in the list that is off the map.
pub open spec fn first_outside(tiles: Seq<Coord>, map: TileMapView, k: int) -> bool {
    &&& 0 <= k < tiles.len()
    &&& !map.holds(tiles[k].x as int, tiles[k].y as int)
    &&& forall|j: int| 0 <= j < k ==> map.holds((#[trigger] tiles[j]).x as int, tiles[j].y as int)
}

/// Every tile in the list is on the map.
pub open spec fn all_inside(tiles: Seq<Coord>, map: TileMapView) -> bool {
    forall|j: int| 0 <= j < tiles.len() ==> map.holds((#[trigger] tiles[j]).x as int, tiles[j].y as int)
}

/// The map after the tiles of `set` were revealed: exactly they are in sight,
/// and they are known along with all that was known before.
pub open spec fn revealed(map: TileMapView, set: Set<(int, int)>) -> TileMapView {
    TileMapView {
        known: Seq::new(
            map.known.len(),
            |i: int| map.known[i] || marks(set, map.width, map.height)[i],
        ),
        visible: marks(set, map.width, map.height),
        ..map
    }
}

/// An entity whose viewshed the reveal pass takes in: one with a
/// recalculated viewshed, whatever else it carries.
pub open spec fn revealing(e: EntityView) -> bool {
    e.viewshed is Some && e.viewshed->0.recalced
}

/// A revealing entity whose viewshed holds a tile off the map.
pub open spec fn stray(e: EntityView, map: TileMapView) -> bool {
    revealing(e) && !all_inside(e.viewshed->0.visible_tiles, map)
}

/// The entity after the reveal pass: the recalculated flag of a viewshed that
/// was taken in is cleared.
pub open spec fn consumed(e: EntityView) -> EntityView {
    if revealing(e) {
        EntityView { viewshed: Some(ViewshedView { recalced: false, ..e.viewshed->0 }), ..e }
    } else {
        e
    }
}

/// The map after the viewsheds of the first `upto` entities were taken in, in
/// the order of spawning.
pub open spec fn revealed_by(map: TileMapView, world: Seq<EntityView>, upto: int) -> TileMapView
    decreases upto,
{
    if upto <= 0 {
        map
    } else if revealing(world[upto - 1]) {
        revealed(
            revealed_by(map, world, upto - 1),
            tile_set(world[upto - 1].viewshed->0.visible_tiles),
        )
    } else {
        revealed_by(map, world, upto - 1)
    }
}

/// After tiles were revealed, whatever is in sight is known, and whatever was
/// known still is.
pub proof fn lemma_revealed_sight_is_known(map: TileMapView, set: Set<(int, int)>)
    requires
        map.known.len() == map.width * map.height,
    ensures
        revealed(map, set).known.len() == map.known.len(),
        revealed(map, set).visible.len() == map.known.len(),
        forall|i: int|
            0 <= i < map.known.len() && #[trigger] revealed(map, set).visible[i] ==> revealed(
                map,
                set,
            ).known[i],
        forall|i: int|
            0 <= i < map.known.len() && map.known[i] ==> #[trigger] revealed(map, set).known[i],
{
}

/// A reveal pass changes neither the size of the map nor its terrain.
pub proof fn lemma_reveal_pass_keeps_shape(map: TileMapView, world: Seq<EntityView>, upto: int)
    ensures
        revealed_by(map, world, upto).width == map.width,
        revealed_by(map, world, upto).height == map.height,
        revealed_by(map, world, upto).terrain == map.terrain,
    decreases upto,
{
    if upto > 0 {
        lemma_reveal_pass_keeps_shape(map, world, upto - 1);
    }
}

/// After a reveal pass over any entities, whatever is in sight is known.
pub proof fn lemma_reveal_pass_sight_is_known(
    map: TileMapView,
    world: Seq<EntityView>,
    upto: int,
)
    requires
        map.known.len() == map.width * map.height,
        map.visible.len() == map.width * map.height,
        forall|i: int| 0 <= i < map.visible.len() && map.visible[i] ==> #[trigger] map.known[i],
    ensures
        revealed_by(map, world, upto).width == map.width,
        revealed_by(map, world, upto).height == map.height,
        revealed_by(map, world, upto).terrain == map.terrain,
        revealed_by(map, world, upto).known.len() == map.known.len(),
        revealed_by(map, world, upto).visible.len() == map.known.len(),
        forall|i: int|
            0 <= i < map.known.len() && #[trigger] revealed_by(map, world, upto).visible[i]
                ==> revealed_by(map, world, upto).known[i],
        forall|i: int|
            0 <= i < map.known.len() && map.known[i] ==> #[trigger] revealed_by(
                map,
                world,
                upto,
            ).known[i],
    decreases upto,
{
    if upto > 0 {
        lemma_reveal_pass_sight_is_known(map, world, upto - 1);
        if revealing(world[upto - 1]) {
            lemma_revealed_sight_is_known(
                revealed_by(map, world, upto - 1),
                tile_set(world[upto - 1].viewshed->0.visible_tiles),
            );
        }
    }
}

impl TileMap {
    /// The place of the first listed tile that is off the map, if there is one.
    pub fn find_outside(&self, tiles: &Vec<Coord>) -> (r: Option<usize>)
        ensures
            match r {
                Some(k) => first_outside(tiles@, self@, k as int),
                None => all_inside(tiles@, self@),
            },
    {
        let mut k: usize = 0;
        while k < tiles.len()
            invariant
                k <= tiles@.len(),
                forall|j: int|
                    0 <= j < k ==> self@.holds((#[trigger] tiles@[j]).x as int, tiles@[j].y as int),
            decreases tiles@.len() - k,
        {
            if !self.in_bounds(tiles[k]) {
                return Some(k);
            }
            k += 1;
        }
        None
    }

    /// Takes in what a viewer sees: the sight layer is cleared, then each listed
    /// tile is marked as in sight and as known. What was known stays known. A
    /// list with a tile off the map is refused, with the first such tile, and
    /// nothing changes.
    pub fn reveal_tiles(&mut self, tiles: &Vec<Coord>) -> (r: Result<(), BoundsError>)
        requires
            old(self).wf(),
        ensures
            final(self).wf(),
            match r {
                Ok(_) => all_inside(tiles@, old(self)@) && final(self)@ == revealed(
                    old(self)@,
                    tile_set(tiles@),
                ),
                Err(e) => *final(self) == *old(self) && exists|k: int|
                    first_outside(tiles@, old(self)@, k) && e == (BoundsError {
                        x: tiles@[k].x,
                        y: tiles@[k].y,
                    }),
            },
    {
        match self.find_outside(tiles) {
            Some(k) => {
                return Err(BoundsError { x: tiles[k].x, y: tiles[k].y });
            },
            None => {},
        }
        let layer = mark_layer(self, tiles);
        let ghost set = tile_set(tiles@);
        let ghost w = self@.width;
        let ghost h = self@.height;
        let mut i: usize = 0;
        while i < layer.len()
            invariant
                i <= layer@.len(),
                layer@ == marks(set, w, h),
                layer@.len() == w * h,
                self.terrain_known@.len() == w * h,
                self.terrain@ == old(self).terrain@,
                self.terrain_visible@ == old(self).terrain_visible@,
                self.width == old(self).width,
                self.height == old(self).height,
                forall|j: int|
                    0 <= j < i ==> #[trigger] self.terrain_known@[j] == (old(self).terrain_known@[j]
                        || layer@[j]),
                forall|j: int|
                    i <= j < w * h ==> #[trigger] self.terrain_known@[j] == old(
                        self,
                    ).terrain_known@[j],
            decreases layer@.len() - i,
        {
            if layer[i] {
                self.terrain_known[i] = true;
            }
            i += 1;
        }
        self.terrain_visible = layer;
        assert(self@.known =~= revealed(old(self)@, set).known);
        Ok(())
    }
}

/// `i` is the id of the first lost entity.
pub open spec fn first_lost(world: Seq<EntityView>, map: TileMapView, i: int) -> bool {
    &&& 0 <= i < world.len()
    &&& lost(world[i], map)
    &&& forall|j: int| 0 <= j < i ==> !lost(#[trigger] world[j], map)
}

/// `i` is the id of the first stray entity.
pub open spec fn first_stray(world: Seq<EntityView>, map: TileMapView, i: int) -> bool {
    &&& 0 <= i < world.len()
    &&& stray(world[i], map)
    &&& forall|j: int| 0 <= j < i ==> !stray(#[trigger] world[j], map)
}

/// The field-of-view pass: every entity with a position and a dirty viewshed
/// gets its visible tiles recomputed against the map; the viewshed is then
/// clean and flagged as recalculated. If such an entity stands off the map the
/// pass is refused, with the position of the first one, and nothing changes.
pub fn update_viewsheds(world: &mut World, map: &TileMap) -> (r: Result<(), BoundsError>)
    requires
        map.wf(),
    ensures
        match r {
            Ok(_) => {
                &&& forall|i: int| 0 <= i < old(world)@.len() ==> !lost(
                    #[trigger] old(world)@[i],
                    map@,
                )
                &&& final(world)@ == old(world)@.map_values(|e: EntityView| refreshed(e, map@))
            },
            Err(e) => *final(world) == *old(world) && exists|i: int|
                first_lost(old(world)@, map@, i) && e == (BoundsError {
                    x: old(world)@[i].position->0.x,
                    y: old(world)@[i].position->0.y,
                }),
        },
{
    let mut k: usize = 0;
    while k < world.entities.len()
        invariant
            k <= world.entities@.len(),
            *world == *old(world),
            forall|j: int| 0 <= j < k ==> !lost(#[trigger] world@[j], map@),
        decreases world.entities@.len() - k,
    {
        match (world.entities[k].position, &world.entities[k].viewshed) {
            (Some(p), Some(v)) => {
                if v.dirty && !map.in_bounds(Coord { x: p.x, y: p.y }) {
                    assert(first_lost(world@, map@, k as int));
                    return Err(BoundsError { x: p.x, y: p.y });
                }
            },
            _ => {},
        }
        k += 1;
    }
    let ghost after = |e: EntityView| refreshed(e, map@);
    let mut i: usize = 0;
    while i < world.entities.len()
        invariant
            map.wf(),
            i <= world.entities@.len(),
            world.entities@.len() == old(world).entities@.len(),
            after == (|e: EntityView| refreshed(e, map@)),
            forall|j: int| 0 <= j < old(world)@.len() ==> !lost(#[trigger] old(world)@[j], map@),
            forall|j: int| 0 <= j < i ==> #[trigger] world@[j] == after(old(world)@[j]),
            forall|j: int|
                i <= j < world.entities@.len() ==> #[trigger] world@[j] == old(world)@[j],
        decreases world.entities@.len() - i,
    {
        let ghost before = world@;
        assert(!lost(old(world)@[i as int], map@));
        assert(before[i as int] == old(world)@[i as int]);
        let due = match (world.entities[i].position, &world.entities[i].viewshed) {
            (Some(p), Some(v)) => if v.dirty {
                Some((Coord { x: p.x, y: p.y }, v.range))
            } else {
                None
            },
            _ => None,
        };
        match due {
            Some((origin, range)) => {
                match compute_visible(map, origin, range) {
                    Ok(tiles) => {
                        match &mut world.entities[i].viewshed {
                            Some(v) => {
                                v.visible_tiles = tiles;
                                v.dirty = false;
                                v.recalced = true;
                            },
                            None => {},
                        }
                    },
                    Err(e) => {
                        assert(false);
                        return Err(e);
                    },
                }
            },
            None => {},
        }
        assert forall|j: int| 0 <= j < world.entities@.len() implies #[trigger] world@[j] == (if j
            == i {
            after(before[j])
        } else {
            before[j]
        }) by {}
        i += 1;
    }
    assert(world@ =~= old(world)@.map_values(after));
    Ok(())
}

/// The reveal pass: for each entity with a recalculated viewshed, in the
/// order of spawning, the map's sight layer is cleared and the
/// viewshed's tiles are marked as in sight and as known; the viewshed's
/// recalculated flag is then cleared. If such a viewshed holds a tile off the
/// map the pass is refused, with the first such tile of the first such
/// viewshed, and nothing changes.
pub fn reveal_map(world: &mut World, map: &mut TileMap) -> (r: Result<(), BoundsError>)
    requires
        old(map).wf(),
    ensures
        final(map).wf(),
        match r {
            Ok(_) => {
                &&& forall|i: int| 0 <= i < old(world)@.len() ==> !stray(
                    #[trigger] old(world)@[i],
                    old(map)@,
                )
                &&& final(world)@ == old(world)@.map_values(|e: EntityView| consumed(e))
                &&& final(map)@ == revealed_by(old(map)@, old(world)@, old(world)@.len() as int)
            },
            Err(e) => *final(world) == *old(world) && *final(map) == *old(map) && exists|
                i: int,
                k: int,
            |
                first_stray(old(world)@, old(map)@, i) && first_outside(
                    old(world)@[i].viewshed->0.visible_tiles,
                    old(map)@,
                    k,
                ) && e == (BoundsError {
                    x: old(world)@[i].viewshed->0.visible_tiles[k].x,
                    y: old(world)@[i].viewshed->0.visible_tiles[k].y,
                }),
        },
{
    let mut n: usize = 0;
    while n < world.entities.len()
        invariant
            n <= world.entities@.len(),
            *world == *old(world),
            *map == *old(map),
            map.wf(),
            forall|j: int| 0 <= j < n ==> !stray(#[trigger] world@[j], map@),
        decreases world.entities@.len() - n,
    {
        match &world.entities[n].viewshed {
            Some(v) => {
                if v.recalced {
                    match map.find_outside(&v.visible_tiles) {
                        Some(k) => {
                            assert(first_stray(world@, map@, n as int));
                            return Err(
                                BoundsError { x: v.visible_tiles[k].x, y: v.visible_tiles[k].y },
                            );
                        },
                        None => {},
                    }
                }
            },
            None => {},
        }
        n += 1;
    }
    let ghost after = |e: EntityView| consumed(e);
    let mut i: usize = 0;
    while i < world.entities.len()
        invariant
            map.wf(),
            map@.width == old(map)@.width,
            map@.height == old(map)@.height,
            i <= world.entities@.len(),
            world.entities@.len() == old(world).entities@.len(),
            after == (|e: EntityView| consumed(e)),
            forall|j: int|
                0 <= j < old(world)@.len() ==> !stray(#[trigger] old(world)@[j], old(map)@),
            forall|j: int| 0 <= j < i ==> #[trigger] world@[j] == after(old(world)@[j]),
            forall|j: int|
                i <= j < world.entities@.len() ==> #[trigger] world@[j] == old(world)@[j],
            map@ == revealed_by(old(map)@, old(world)@, i as int),
        decreases world.entities@.len() - i,
    {
        let ghost before = world@;
        assert(!stray(old(world)@[i as int], old(map)@));
        assert(before[i as int] == old(world)@[i as int]);
        match &mut world.entities[i].viewshed {
            Some(v) => {
                if v.recalced {
                    assert(revealing(before[i as int]));
                    assert(all_inside(v.visible_tiles@, old(map)@));
                    assert(all_inside(v.visible_tiles@, map@)) by {
                        assert forall|j: int| 0 <= j < v.visible_tiles@.len() implies map@.holds(
                            (#[trigger] v.visible_tiles@[j]).x as int,
                            v.visible_tiles@[j].y as int,
                        ) by {
                            assert(old(map)@.holds(
                                v.visible_tiles@[j].x as int,
                                v.visible_tiles@[j].y as int,
                            ));
                        }
                    }
                    match map.reveal_tiles(&v.visible_tiles) {
                        Ok(_) => {},
                        Err(e) => {
                            assert(false);
                            return Err(e);
                        },
                    }
                    v.recalced = false;
                }
            },
            None => {},
        }
        assert forall|j: int| 0 <= j < world.entities@.len() implies #[trigger] world@[j] == (if j
            == i {
            after(before[j])
        } else {
            before[j]
        }) by {}
        assert(map@ == revealed_by(old(map)@, old(world)@, i + 1));
        i += 1;
    }
    assert(world@ =~= old(world)@.map_values(after));
    Ok(())
}

} // verus!
