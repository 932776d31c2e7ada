use tileworld::{
    add_cursor, add_npcs, add_player, Color, ComponentSet, Cursor, Entity, LeftMover, Position,
    Renderable, TerrainType, TileMap, Viewshed, World,
};

const NOTHING: ComponentSet = ComponentSet {
    position: false,
    renderable: false,
    viewshed: false,
    cursor: false,
    left_mover: false,
};

#[test]
fn new_world_is_empty() {
    let world = World::new();
    assert_eq!(world.len(), 0);
    assert_eq!(world.query(NOTHING, NOTHING), Vec::<usize>::new());
}

#[test]
fn spawn_returns_ids_in_order() {
    let mut world = World::new();
    assert_eq!(world.spawn(Entity::bare()), 0);
    assert_eq!(world.spawn(Entity::bare()), 1);
    assert_eq!(world.spawn(Entity::bare()), 2);
    assert_eq!(world.len(), 3);
}

#[test]
fn query_filters_by_required_and_excluded_components() {
    let map = TileMap::filled(80, 50, TerrainType::Land);
    let mut world = World::new();
    add_cursor(&mut world, &map);
    add_player(&mut world, &map);
    add_npcs(&mut world);
    world.spawn(Entity::bare());
    assert_eq!(world.len(), 11);
    assert_eq!(world.query(NOTHING, NOTHING), (0..11).collect::<Vec<usize>>());
    let positioned = ComponentSet { position: true, ..NOTHING };
    assert_eq!(world.query(positioned, NOTHING), (0..10).collect::<Vec<usize>>());
    let cursors = ComponentSet { cursor: true, ..NOTHING };
    assert_eq!(world.query(cursors, NOTHING), vec![0, 1]);
    assert_eq!(world.query(positioned, cursors), (2..10).collect::<Vec<usize>>());
    let seers = ComponentSet { position: true, viewshed: true, ..NOTHING };
    assert_eq!(world.query(seers, NOTHING), vec![0]);
    let drawn = ComponentSet { position: true, renderable: true, ..NOTHING };
    assert_eq!(world.query(drawn, NOTHING), (1..10).collect::<Vec<usize>>());
    let wanderers = ComponentSet { left_mover: true, ..NOTHING };
    assert_eq!(world.query(wanderers, cursors), (2..10).collect::<Vec<usize>>());
    assert_eq!(world.query(cursors, cursors), Vec::<usize>::new());
    assert_eq!(world.query(NOTHING, positioned), vec![10]);
}

#[test]
fn cursor_starts_on_the_spawn_cell_with_a_dirty_viewshed() {
    let map = TileMap::filled(80, 50, TerrainType::Land);
    let mut world = World::new();
    assert_eq!(add_cursor(&mut world, &map), 0);
    assert_eq!(
        world.entities,
        vec![Entity {
            position: Some(Position { x: 40, y: 30 }),
            renderable: None,
            viewshed: Some(Viewshed {
                visible_tiles: Vec::new(),
                range: 8,
                dirty: true,
                recalced: false,
            }),
            cursor: Some(Cursor),
            left_mover: None,
        }]
    );
}

#[test]
fn player_starts_on_the_spawn_cell_as_a_yellow_at_sign() {
    let map = TileMap::filled(80, 50, TerrainType::Land);
    let mut world = World::new();
    world.spawn(Entity::bare());
    assert_eq!(add_player(&mut world, &map), 1);
    assert_eq!(
        world.entities[1],
        Entity {
            position: Some(Position { x: 40, y: 30 }),
            renderable: Some(Renderable { glyph: '@', fg: Color::Yellow, bg: Color::Black }),
            viewshed: None,
            cursor: Some(Cursor),
            left_mover: None,
        }
    );
}

#[test]
fn eight_wanderers_start_on_row_twenty_five() {
    let mut world = World::new();
    add_npcs(&mut world);
    assert_eq!(world.len(), 8);
    for i in 0..8 {
        assert_eq!(
            world.entities[i],
            Entity {
                position: Some(Position { x: i as i32 * 10 + 5, y: 25 }),
                renderable: Some(Renderable {
                    glyph: '\u{263A}',
                    fg: Color::Red,
                    bg: Color::Black,
                }),
                viewshed: None,
                cursor: None,
                left_mover: Some(LeftMover),
            }
        );
    }
}

#[test]
fn entity_answers_what_it_carries() {
    let mut e = Entity::bare();
    e.position = Some(Position { x: 0, y: 0 });
    let positioned = ComponentSet { position: true, ..NOTHING };
    let cursors = ComponentSet { cursor: true, ..NOTHING };
    assert!(e.answers(positioned, NOTHING));
    assert!(e.answers(positioned, cursors));
    assert!(!e.answers(cursors, NOTHING));
    assert!(!e.answers(NOTHING, positioned));
}

#[test]
fn mutate_changes_one_entity_only() {
    let mut world = World::new();
    add_npcs(&mut world);
    let before = world.clone();
    let found = world.mutate(3, |mut e| {
        e.position = Some(Position { x: 1, y: 2 });
        e.left_mover = None;
        e
    });
    assert!(found);
    for i in 0..8 {
        if i != 3 {
            assert_eq!(world.entities[i], before.entities[i]);
        }
    }
    assert_eq!(world.entities[3].position, Some(Position { x: 1, y: 2 }));
    assert_eq!(world.entities[3].left_mover, None);
    assert_eq!(world.entities[3].renderable, before.entities[3].renderable);
}

#[test]
fn mutate_of_a_missing_entity_does_nothing() {
    let mut world = World::new();
    add_npcs(&mut world);
    let before = world.clone();
    assert!(!world.mutate(8, |_| Entity::bare()));
    assert!(!world.mutate(usize::MAX, |_| Entity::bare()));
    assert_eq!(world, before);
}
