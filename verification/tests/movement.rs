use bracket_lib::prelude::RandomNumberGenerator;
use tileworld::{
    add_npcs, destination_of, drift, handle_input, move_left, step, wrap, wrap_position,
    BoundsError, Command, Coord, Cursor, Entity, LeftMover, Position, TerrainType, TileMap,
    Viewshed, World,
};

fn player_at(x: i32, y: i32) -> Entity {
    let mut e = Entity::bare();
    e.position = Some(Position { x, y });
    e.cursor = Some(Cursor);
    e.viewshed = Some(Viewshed { visible_tiles: Vec::new(), range: 8, dirty: false, recalced: false });
    e
}

fn pond_map() -> TileMap {
    let mut map = TileMap::filled(80, 50, TerrainType::Land);
    map.set_terrain(Coord { x: 11, y: 10 }, TerrainType::Water).unwrap();
    map.set_terrain(Coord { x: 10, y: 11 }, TerrainType::Mountain).unwrap();
    map
}

#[test]
fn wrap_leaves_positions_on_the_grid_alone() {
    for (x, y) in [(0, 0), (79, 49), (40, 30), (0, 49), (79, 0)] {
        assert_eq!(wrap(Position { x, y }, 80, 50), Position { x, y });
    }
}

#[test]
fn wrap_is_toroidal() {
    assert_eq!(wrap(Position { x: -1, y: 10 }, 80, 50), Position { x: 79, y: 10 });
    assert_eq!(wrap(Position { x: 80, y: 10 }, 80, 50), Position { x: 0, y: 10 });
    assert_eq!(wrap(Position { x: 5, y: -1 }, 80, 50), Position { x: 5, y: 49 });
    assert_eq!(wrap(Position { x: 5, y: 50 }, 80, 50), Position { x: 5, y: 0 });
    assert_eq!(wrap(Position { x: -1, y: 50 }, 80, 50), Position { x: 79, y: 0 });
}

#[test]
fn wrap_adds_the_grid_size_once_only() {
    assert_eq!(wrap(Position { x: -200, y: 130 }, 80, 50), Position { x: -120, y: 80 });
    assert_eq!(wrap(Position { x: 170, y: -51 }, 80, 50), Position { x: 90, y: -1 });
}

#[test]
fn wrap_twice_is_wrap_once_near_the_grid() {
    for x in -80..160 {
        let once = wrap(Position { x, y: 3 }, 80, 50);
        assert!(0 <= once.x && once.x < 80);
        assert_eq!(wrap(once, 80, 50), once);
    }
}

#[test]
fn step_onto_water_is_blocked() {
    let map = pond_map();
    assert_eq!(step(&map, Position { x: 10, y: 10 }, 1, 0), Ok(Position { x: 10, y: 10 }));
    assert_eq!(step(&map, Position { x: 12, y: 11 }, -1, -1), Ok(Position { x: 12, y: 11 }));
}

#[test]
fn step_onto_land_or_mountain_goes_there() {
    let map = pond_map();
    assert_eq!(step(&map, Position { x: 10, y: 10 }, -1, 0), Ok(Position { x: 9, y: 10 }));
    assert_eq!(step(&map, Position { x: 10, y: 10 }, 0, 1), Ok(Position { x: 10, y: 11 }));
    assert_eq!(step(&map, Position { x: 10, y: 10 }, 1, 1), Ok(Position { x: 11, y: 11 }));
    assert_eq!(step(&map, Position { x: 10, y: 10 }, 0, 0), Ok(Position { x: 10, y: 10 }));
}

#[test]
fn step_off_the_map_is_refused() {
    let map = pond_map();
    assert_eq!(step(&map, Position { x: 0, y: 30 }, -1, 0), Err(BoundsError { x: -1, y: 30 }));
    assert_eq!(step(&map, Position { x: 0, y: 0 }, -1, -1), Err(BoundsError { x: -1, y: -1 }));
    assert_eq!(step(&map, Position { x: 79, y: 49 }, 1, 1), Err(BoundsError { x: 80, y: 50 }));
    assert_eq!(step(&map, Position { x: 79, y: 49 }, 0, 1), Err(BoundsError { x: 79, y: 50 }));
    assert_eq!(step(&map, Position { x: 200, y: 10 }, 0, 0), Err(BoundsError { x: 200, y: 10 }));
}

#[test]
fn step_from_off_the_map_onto_it_is_taken() {
    let map = pond_map();
    assert_eq!(step(&map, Position { x: -1, y: 50 }, 1, -1), Ok(Position { x: 0, y: 49 }));
}

#[test]
fn destination_is_clipped_to_the_last_number() {
    let edge = Position { x: i32::MAX, y: i32::MIN };
    assert_eq!(destination_of(edge, 1, -1), Coord { x: i32::MAX, y: i32::MIN });
    assert_eq!(destination_of(edge, -1, 1), Coord { x: i32::MAX - 1, y: i32::MIN + 1 });
    assert_eq!(destination_of(Position { x: 3, y: 4 }, -5, 6), Coord { x: -2, y: 10 });
    let map = pond_map();
    assert_eq!(step(&map, edge, 1, -1), Err(BoundsError { x: i32::MAX, y: i32::MIN }));
}

#[test]
fn move_off_the_map_is_refused_and_changes_nothing() {
    let map = pond_map();
    let mut world = World::new();
    world.spawn(player_at(10, 10));
    world.spawn(player_at(0, 30));
    world.spawn(player_at(0, 5));
    let before = world.clone();
    assert_eq!(
        handle_input(&mut world, &map, Command::Move { dx: -1, dy: 0 }),
        Err(BoundsError { x: -1, y: 30 })
    );
    assert_eq!(world, before);
    assert_eq!(handle_input(&mut world, &map, Command::Idle), Ok(false));
    assert_eq!(handle_input(&mut world, &map, Command::Quit), Ok(true));
    assert_eq!(world, before);
}

#[test]
fn entities_that_take_no_step_are_not_looked_up() {
    let map = pond_map();
    let mut world = World::new();
    let mut bystander = player_at(0, 0);
    bystander.cursor = None;
    world.spawn(bystander);
    let mut nowhere = Entity::bare();
    nowhere.cursor = Some(Cursor);
    world.spawn(nowhere);
    world.spawn(player_at(500, 500));
    let before = world.clone();
    assert_eq!(handle_input(&mut world, &map, Command::Idle), Ok(false));
    assert_eq!(world, before);
    assert_eq!(
        handle_input(&mut world, &map, Command::Move { dx: -1, dy: -1 }),
        Err(BoundsError { x: 499, y: 499 })
    );
    assert_eq!(world, before);
}

#[test]
fn moving_onto_land_updates_position_and_marks_viewshed_dirty() {
    let map = pond_map();
    let mut world = World::new();
    world.spawn(player_at(10, 10));
    let quit = handle_input(&mut world, &map, Command::Move { dx: -1, dy: 0 });
    assert_eq!(quit, Ok(false));
    assert_eq!(world.entities[0].position, Some(Position { x: 9, y: 10 }));
    assert!(world.entities[0].viewshed.as_ref().unwrap().dirty);
}

#[test]
fn moving_onto_water_changes_nothing() {
    let map = pond_map();
    let mut world = World::new();
    world.spawn(player_at(10, 10));
    let before = world.clone();
    assert_eq!(handle_input(&mut world, &map, Command::Move { dx: 1, dy: 0 }), Ok(false));
    assert_eq!(world, before);
    assert!(!world.entities[0].viewshed.as_ref().unwrap().dirty);
}

#[test]
fn only_player_controlled_entities_take_the_step() {
    let map = pond_map();
    let mut world = World::new();
    let mut bystander = player_at(20, 20);
    bystander.cursor = None;
    world.spawn(bystander);
    world.spawn(player_at(30, 30));
    let mut nowhere = Entity::bare();
    nowhere.cursor = Some(Cursor);
    world.spawn(nowhere);
    assert_eq!(handle_input(&mut world, &map, Command::Move { dx: 1, dy: 1 }), Ok(false));
    assert_eq!(world.entities[0].position, Some(Position { x: 20, y: 20 }));
    assert!(!world.entities[0].viewshed.as_ref().unwrap().dirty);
    assert_eq!(world.entities[1].position, Some(Position { x: 31, y: 31 }));
    assert!(world.entities[1].viewshed.as_ref().unwrap().dirty);
    assert_eq!(world.entities[2].position, None);
}

#[test]
fn idle_and_quit_move_nothing() {
    let map = pond_map();
    let mut world = World::new();
    world.spawn(player_at(10, 10));
    let before = world.clone();
    assert_eq!(handle_input(&mut world, &map, Command::Idle), Ok(false));
    assert_eq!(world, before);
    assert_eq!(handle_input(&mut world, &map, Command::Quit), Ok(true));
    assert_eq!(world, before);
    assert_eq!(handle_input(&mut world, &map, Command::Move { dx: 0, dy: 0 }), Ok(false));
    assert_eq!(world, before);
}

#[test]
fn wrap_pass_brings_entities_back_and_marks_them_dirty() {
    let map = pond_map();
    let mut world = World::new();
    world.spawn(player_at(-1, 10));
    world.spawn(player_at(5, 5));
    let mut plain = Entity::bare();
    plain.position = Some(Position { x: 80, y: 50 });
    world.spawn(plain);
    world.spawn(Entity::bare());
    wrap_position(&mut world, &map);
    assert_eq!(world.entities[0].position, Some(Position { x: 79, y: 10 }));
    assert!(world.entities[0].viewshed.as_ref().unwrap().dirty);
    assert_eq!(world.entities[1].position, Some(Position { x: 5, y: 5 }));
    assert!(!world.entities[1].viewshed.as_ref().unwrap().dirty);
    assert_eq!(world.entities[2].position, Some(Position { x: 0, y: 0 }));
    assert_eq!(world.entities[3], Entity::bare());
}

#[test]
fn wrap_pass_on_a_wrapped_world_changes_nothing() {
    let map = pond_map();
    let mut world = World::new();
    world.spawn(player_at(-1, 50));
    world.spawn(player_at(79, 0));
    wrap_position(&mut world, &map);
    let once = world.clone();
    wrap_position(&mut world, &map);
    assert_eq!(world, once);
}

#[test]
fn relocating_to_the_same_place_keeps_the_viewshed_clean() {
    let mut e = player_at(3, 4);
    e.relocate(Position { x: 3, y: 4 });
    assert!(!e.viewshed.as_ref().unwrap().dirty);
    e.relocate(Position { x: 3, y: 5 });
    assert!(e.viewshed.as_ref().unwrap().dirty);
    assert_eq!(e.position, Some(Position { x: 3, y: 5 }));
}

#[test]
fn drift_moves_a_wanderer_left_on_a_one() {
    let mut e = Entity::bare();
    e.position = Some(Position { x: 5, y: 25 });
    e.left_mover = Some(LeftMover);
    for roll in 2..=10 {
        drift(&mut e, roll);
        assert_eq!(e.position, Some(Position { x: 5, y: 25 }));
    }
    drift(&mut e, 1);
    assert_eq!(e.position, Some(Position { x: 4, y: 25 }));
}

#[test]
fn drift_leaves_others_alone() {
    let mut e = player_at(5, 25);
    drift(&mut e, 1);
    assert_eq!(e.position, Some(Position { x: 5, y: 25 }));
    let mut nowhere = Entity::bare();
    nowhere.left_mover = Some(LeftMover);
    drift(&mut nowhere, 1);
    assert_eq!(nowhere.position, None);
    let mut edge = Entity::bare();
    edge.left_mover = Some(LeftMover);
    edge.position = Some(Position { x: i32::MIN, y: 0 });
    drift(&mut edge, 1);
    assert_eq!(edge.position, Some(Position { x: i32::MIN, y: 0 }));
}

#[test]
fn wandering_pass_moves_each_wanderer_by_one_or_not_at_all() {
    let mut rng = RandomNumberGenerator::seeded(5);
    let mut world = World::new();
    add_npcs(&mut world);
    world.spawn(player_at(40, 30));
    let mut moved = 0;
    for _ in 0..200 {
        let before = world.clone();
        move_left(&mut world, &mut rng);
        for i in 0..8 {
            let was = before.entities[i].position.unwrap();
            let is = world.entities[i].position.unwrap();
            assert_eq!(is.y, was.y);
            assert!(is.x == was.x || is.x == was.x - 1);
            if is.x != was.x {
                moved += 1;
            }
        }
        assert_eq!(world.entities[8], before.entities[8]);
    }
    assert!(moved > 0);
    assert!(moved < 8 * 200);
}
