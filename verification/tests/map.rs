use tileworld::{xy_idx, BoundsError, Coord, TerrainType, TileMap};

#[test]
fn index_is_row_major() {
    assert_eq!(xy_idx(0, 0, 80), 0);
    assert_eq!(xy_idx(79, 0, 80), 79);
    assert_eq!(xy_idx(0, 1, 80), 80);
    assert_eq!(xy_idx(40, 30, 80), 2440);
    assert_eq!(xy_idx(79, 49, 80), 3999);
}

#[test]
fn filled_map_has_one_terrain_and_nothing_seen() {
    let map = TileMap::filled(4, 3, TerrainType::Water);
    assert_eq!(map.width, 4);
    assert_eq!(map.height, 3);
    assert_eq!(map.terrain, vec![TerrainType::Water; 12]);
    assert_eq!(map.terrain_known, vec![false; 12]);
    assert_eq!(map.terrain_visible, vec![false; 12]);
}

#[test]
fn empty_map_is_allowed() {
    let map = TileMap::filled(0, 7, TerrainType::Land);
    assert!(map.terrain.is_empty());
    assert!(!map.in_bounds(Coord { x: 0, y: 0 }));
}

#[test]
fn bounds_are_half_open() {
    let map = TileMap::filled(80, 50, TerrainType::Land);
    assert!(map.in_bounds(Coord { x: 0, y: 0 }));
    assert!(map.in_bounds(Coord { x: 79, y: 49 }));
    assert!(!map.in_bounds(Coord { x: 80, y: 49 }));
    assert!(!map.in_bounds(Coord { x: 79, y: 50 }));
    assert!(!map.in_bounds(Coord { x: -1, y: 0 }));
    assert!(!map.in_bounds(Coord { x: 0, y: -1 }));
}

#[test]
fn index_of_checks_bounds() {
    let map = TileMap::filled(80, 50, TerrainType::Land);
    assert_eq!(map.index_of(Coord { x: 3, y: 2 }), Ok(163));
    assert_eq!(map.index_of(Coord { x: 80, y: 2 }), Err(BoundsError { x: 80, y: 2 }));
    assert_eq!(map.index_of(Coord { x: -1, y: -5 }), Err(BoundsError { x: -1, y: -5 }));
}

#[test]
fn set_terrain_writes_one_cell() {
    let mut map = TileMap::filled(4, 3, TerrainType::Land);
    assert_eq!(map.set_terrain(Coord { x: 1, y: 2 }, TerrainType::Mountain), Ok(()));
    let mut expected = vec![TerrainType::Land; 12];
    expected[9] = TerrainType::Mountain;
    assert_eq!(map.terrain, expected);
    assert_eq!(map.terrain_known, vec![false; 12]);
    assert_eq!(map.terrain_visible, vec![false; 12]);
}

#[test]
fn set_terrain_refuses_a_cell_off_the_map() {
    let mut map = TileMap::filled(4, 3, TerrainType::Land);
    let before = map.clone();
    assert_eq!(
        map.set_terrain(Coord { x: 4, y: 0 }, TerrainType::Water),
        Err(BoundsError { x: 4, y: 0 })
    );
    assert_eq!(
        map.set_terrain(Coord { x: 0, y: 3 }, TerrainType::Water),
        Err(BoundsError { x: 0, y: 3 })
    );
    assert_eq!(
        map.set_terrain(Coord { x: -1, y: 1 }, TerrainType::Water),
        Err(BoundsError { x: -1, y: 1 })
    );
    assert_eq!(map, before);
}

#[test]
fn only_mountain_stops_sight_and_only_water_stops_movement() {
    assert!(TerrainType::Mountain.blocks_sight());
    assert!(!TerrainType::Water.blocks_sight());
    assert!(!TerrainType::Land.blocks_sight());
    assert!(TerrainType::Water.blocks_movement());
    assert!(!TerrainType::Mountain.blocks_movement());
    assert!(!TerrainType::Land.blocks_movement());
}

#[test]
fn opacity_by_index() {
    let mut map = TileMap::filled(4, 3, TerrainType::Land);
    map.set_terrain(Coord { x: 2, y: 1 }, TerrainType::Mountain).unwrap();
    assert!(map.opaque_at(6));
    assert!(!map.opaque_at(5));
    assert!(!map.opaque_at(12));
    assert!(!map.opaque_at(usize::MAX));
}
