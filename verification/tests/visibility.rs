use tileworld::{
    add_cursor, compute_visible, reveal_map, update_viewsheds, BoundsError, Coord, Cursor, Entity,
    Position, TerrainType, TileMap, Viewshed, World,
};

fn viewer(x: i32, y: i32, range: i32) -> Entity {
    let mut e = Entity::bare();
    e.position = Some(Position { x, y });
    e.cursor = Some(Cursor);
    e.viewshed = Some(Viewshed::new(range));
    e
}

fn sight_is_known(map: &TileMap) -> bool {
    (0..map.terrain.len()).all(|i| !map.terrain_visible[i] || map.terrain_known[i])
}

#[test]
fn new_viewshed_asks_for_its_first_pass() {
    let v = Viewshed::new(8);
    assert_eq!(v, Viewshed { visible_tiles: Vec::new(), range: 8, dirty: true, recalced: false });
}

#[test]
fn dirty_viewshed_is_recomputed_once() {
    let map = TileMap::filled(80, 50, TerrainType::Land);
    let mut world = World::new();
    add_cursor(&mut world, &map);
    assert_eq!(update_viewsheds(&mut world, &map), Ok(()));
    let seen = compute_visible(&map, Coord { x: 40, y: 30 }, 8).unwrap();
    assert_eq!(
        world.entities[0].viewshed,
        Some(Viewshed { visible_tiles: seen, range: 8, dirty: false, recalced: true })
    );
    let after_first = world.clone();
    assert_eq!(update_viewsheds(&mut world, &map), Ok(()));
    assert_eq!(world, after_first);
}

#[test]
fn clean_viewshed_is_left_alone() {
    let map = TileMap::filled(80, 50, TerrainType::Land);
    let mut world = World::new();
    let mut e = viewer(10, 10, 8);
    e.viewshed = Some(Viewshed {
        visible_tiles: vec![Coord { x: 1, y: 1 }],
        range: 8,
        dirty: false,
        recalced: false,
    });
    world.spawn(e);
    let mut blind = Entity::bare();
    blind.position = Some(Position { x: 3, y: 3 });
    world.spawn(blind);
    let mut placeless = Entity::bare();
    placeless.viewshed = Some(Viewshed::new(4));
    world.spawn(placeless);
    let before = world.clone();
    assert_eq!(update_viewsheds(&mut world, &map), Ok(()));
    assert_eq!(world, before);
}

#[test]
fn viewer_off_the_map_stops_the_pass_and_changes_nothing() {
    let map = TileMap::filled(80, 50, TerrainType::Land);
    let mut world = World::new();
    world.spawn(viewer(10, 10, 8));
    world.spawn(viewer(80, 10, 8));
    world.spawn(viewer(-3, 99, 8));
    let before = world.clone();
    assert_eq!(update_viewsheds(&mut world, &map), Err(BoundsError { x: 80, y: 10 }));
    assert_eq!(world, before);
}

#[test]
fn clean_viewer_off_the_map_is_no_error() {
    let map = TileMap::filled(80, 50, TerrainType::Land);
    let mut world = World::new();
    let mut e = viewer(200, 10, 8);
    e.viewshed.as_mut().unwrap().dirty = false;
    world.spawn(e);
    let before = world.clone();
    assert_eq!(update_viewsheds(&mut world, &map), Ok(()));
    assert_eq!(world, before);
}

#[test]
fn reveal_marks_the_listed_tiles() {
    let mut map = TileMap::filled(3, 2, TerrainType::Land);
    assert_eq!(map.reveal_tiles(&vec![Coord { x: 0, y: 0 }, Coord { x: 2, y: 1 }]), Ok(()));
    assert_eq!(map.terrain_visible, vec![true, false, false, false, false, true]);
    assert_eq!(map.terrain_known, vec![true, false, false, false, false, true]);
    assert_eq!(map.reveal_tiles(&vec![Coord { x: 1, y: 0 }, Coord { x: 1, y: 0 }]), Ok(()));
    assert_eq!(map.terrain_visible, vec![false, true, false, false, false, false]);
    assert_eq!(map.terrain_known, vec![true, true, false, false, false, true]);
    assert_eq!(map.reveal_tiles(&Vec::new()), Ok(()));
    assert_eq!(map.terrain_visible, vec![false; 6]);
    assert_eq!(map.terrain_known, vec![true, true, false, false, false, true]);
    assert_eq!(map.terrain, vec![TerrainType::Land; 6]);
}

#[test]
fn reveal_refuses_a_tile_off_the_map() {
    let mut map = TileMap::filled(3, 2, TerrainType::Land);
    map.reveal_tiles(&vec![Coord { x: 1, y: 1 }]).unwrap();
    let before = map.clone();
    let tiles = vec![Coord { x: 0, y: 0 }, Coord { x: 3, y: 0 }, Coord { x: 0, y: -1 }];
    assert_eq!(map.reveal_tiles(&tiles), Err(BoundsError { x: 3, y: 0 }));
    assert_eq!(map, before);
    assert_eq!(map.find_outside(&tiles), Some(1));
    assert_eq!(map.find_outside(&vec![Coord { x: 2, y: 1 }]), None);
}

#[test]
fn reveal_pass_takes_in_a_recalculated_viewshed_once() {
    let mut map = TileMap::filled(80, 50, TerrainType::Land);
    let mut world = World::new();
    add_cursor(&mut world, &map);
    update_viewsheds(&mut world, &map).unwrap();
    assert_eq!(reveal_map(&mut world, &mut map), Ok(()));
    let seen = compute_visible(&map, Coord { x: 40, y: 30 }, 8).unwrap();
    for y in 0..50 {
        for x in 0..80 {
            let i = (y * 80 + x) as usize;
            let in_sight = seen.contains(&Coord { x, y });
            assert_eq!(map.terrain_visible[i], in_sight);
            assert_eq!(map.terrain_known[i], in_sight);
        }
    }
    assert!(!world.entities[0].viewshed.as_ref().unwrap().recalced);
    assert!(sight_is_known(&map));
    let (world_then, map_then) = (world.clone(), map.clone());
    assert_eq!(reveal_map(&mut world, &mut map), Ok(()));
    assert_eq!(world, world_then);
    assert_eq!(map, map_then);
}

#[test]
fn what_was_seen_stays_known_when_out_of_sight() {
    let mut map = TileMap::filled(80, 50, TerrainType::Land);
    let mut world = World::new();
    world.spawn(viewer(10, 10, 3));
    update_viewsheds(&mut world, &map).unwrap();
    reveal_map(&mut world, &mut map).unwrap();
    let first = compute_visible(&map, Coord { x: 10, y: 10 }, 3).unwrap();
    world.entities[0].relocate(Position { x: 60, y: 40 });
    update_viewsheds(&mut world, &map).unwrap();
    reveal_map(&mut world, &mut map).unwrap();
    let second = compute_visible(&map, Coord { x: 60, y: 40 }, 3).unwrap();
    for y in 0..50 {
        for x in 0..80 {
            let i = (y * 80 + x) as usize;
            let c = Coord { x, y };
            assert_eq!(map.terrain_visible[i], second.contains(&c));
            assert_eq!(map.terrain_known[i], first.contains(&c) || second.contains(&c));
        }
    }
    assert!(sight_is_known(&map));
}

#[test]
fn reveal_pass_takes_in_viewsheds_whatever_the_entity_carries() {
    let mut map = TileMap::filled(80, 50, TerrainType::Land);
    let mut world = World::new();
    let mut npc = viewer(10, 10, 3);
    npc.cursor = None;
    world.spawn(npc);
    update_viewsheds(&mut world, &map).unwrap();
    assert_eq!(reveal_map(&mut world, &mut map), Ok(()));
    let seen = compute_visible(&map, Coord { x: 10, y: 10 }, 3).unwrap();
    for y in 0..50 {
        for x in 0..80 {
            let i = (y * 80 + x) as usize;
            assert_eq!(map.terrain_visible[i], seen.contains(&Coord { x, y }));
            assert_eq!(map.terrain_known[i], seen.contains(&Coord { x, y }));
        }
    }
    let v = world.entities[0].viewshed.as_ref().unwrap();
    assert!(!v.recalced);
    assert!(!v.dirty);
    assert_eq!(v.visible_tiles, seen);
    assert_eq!(v.range, 3);
    assert_eq!(world.entities[0].position, Some(Position { x: 10, y: 10 }));
}

#[test]
fn reveal_pass_refuses_a_stray_tile_on_an_entity_without_the_tag() {
    let mut map = TileMap::filled(80, 50, TerrainType::Land);
    let mut world = World::new();
    let mut npc = viewer(10, 10, 3);
    npc.cursor = None;
    npc.viewshed = Some(Viewshed {
        visible_tiles: vec![Coord { x: 10, y: 10 }, Coord { x: -1, y: 10 }],
        range: 3,
        dirty: false,
        recalced: true,
    });
    world.spawn(npc);
    let (world_then, map_then) = (world.clone(), map.clone());
    assert_eq!(reveal_map(&mut world, &mut map), Err(BoundsError { x: -1, y: 10 }));
    assert_eq!(world, world_then);
    assert_eq!(map, map_then);
}

#[test]
fn viewshed_that_was_not_recalculated_is_not_taken_in() {
    let mut map = TileMap::filled(80, 50, TerrainType::Land);
    let mut world = World::new();
    let mut e = viewer(10, 10, 3);
    e.viewshed = Some(Viewshed {
        visible_tiles: vec![Coord { x: 10, y: 10 }, Coord { x: 500, y: 10 }],
        range: 3,
        dirty: false,
        recalced: false,
    });
    world.spawn(e);
    let (world_then, map_then) = (world.clone(), map.clone());
    assert_eq!(reveal_map(&mut world, &mut map), Ok(()));
    assert_eq!(world, world_then);
    assert_eq!(map, map_then);
}

#[test]
fn reveal_pass_refuses_a_viewshed_with_a_tile_off_the_map() {
    let mut map = TileMap::filled(80, 50, TerrainType::Land);
    let mut world = World::new();
    let mut good = viewer(10, 10, 3);
    good.viewshed = Some(Viewshed {
        visible_tiles: vec![Coord { x: 10, y: 10 }],
        range: 3,
        dirty: false,
        recalced: true,
    });
    world.spawn(good);
    let mut bad = viewer(20, 20, 3);
    bad.viewshed = Some(Viewshed {
        visible_tiles: vec![Coord { x: 20, y: 20 }, Coord { x: 20, y: 50 }, Coord { x: 80, y: 0 }],
        range: 3,
        dirty: false,
        recalced: true,
    });
    world.spawn(bad);
    let (world_then, map_then) = (world.clone(), map.clone());
    assert_eq!(reveal_map(&mut world, &mut map), Err(BoundsError { x: 20, y: 50 }));
    assert_eq!(world, world_then);
    assert_eq!(map, map_then);
}

#[test]
fn last_of_two_viewsheds_decides_what_is_in_sight() {
    let mut map = TileMap::filled(80, 50, TerrainType::Land);
    let mut world = World::new();
    world.spawn(viewer(10, 10, 2));
    world.spawn(viewer(60, 40, 2));
    update_viewsheds(&mut world, &map).unwrap();
    reveal_map(&mut world, &mut map).unwrap();
    assert!(!map.terrain_visible[10 * 80 + 10]);
    assert!(map.terrain_known[10 * 80 + 10]);
    assert!(map.terrain_visible[40 * 80 + 60]);
    assert!(map.terrain_known[40 * 80 + 60]);
    assert!(sight_is_known(&map));
}
