use tileworld::{
    add_npcs, add_player, cls, draw_cursor, draw_map, draw_things, Color, Coord, Cursor, DrawOp,
    Entity, Position, Renderable, TerrainType, TileMap, World,
};

#[test]
fn cls_asks_for_a_cleared_screen() {
    let mut frame = vec![DrawOp::Background { x: 1, y: 1, bg: Color::Red }];
    cls(&mut frame);
    assert_eq!(frame, vec![DrawOp::Background { x: 1, y: 1, bg: Color::Red }, DrawOp::Clear]);
}

#[test]
fn unknown_map_draws_nothing() {
    let map = TileMap::fenced(6, 4);
    let mut frame = Vec::new();
    draw_map(&mut frame, &map);
    assert!(frame.is_empty());
}

#[test]
fn known_cells_are_drawn_row_by_row() {
    let mut map = TileMap::filled(3, 2, TerrainType::Land);
    map.set_terrain(Coord { x: 1, y: 0 }, TerrainType::Water).unwrap();
    map.set_terrain(Coord { x: 2, y: 1 }, TerrainType::Mountain).unwrap();
    map.reveal_tiles(&vec![Coord { x: 2, y: 1 }, Coord { x: 0, y: 0 }, Coord { x: 0, y: 1 }])
        .unwrap();
    map.reveal_tiles(&vec![Coord { x: 1, y: 0 }, Coord { x: 0, y: 1 }]).unwrap();
    let mut frame = vec![DrawOp::Clear];
    draw_map(&mut frame, &map);
    assert_eq!(
        frame,
        vec![
            DrawOp::Clear,
            DrawOp::Cell {
                x: 0,
                y: 0,
                fg: Color::DarkGreen,
                bg: Color::Black,
                glyph: '.',
                greyscale: true,
            },
            DrawOp::Cell { x: 1, y: 0, fg: Color::Blue, bg: Color::Blue, glyph: '~', greyscale: false },
            DrawOp::Cell {
                x: 0,
                y: 1,
                fg: Color::DarkGreen,
                bg: Color::Black,
                glyph: '.',
                greyscale: false,
            },
            DrawOp::Cell {
                x: 2,
                y: 1,
                fg: Color::Black,
                bg: Color::SaddleBrown,
                glyph: 'M',
                greyscale: true,
            },
        ]
    );
}

#[test]
fn entities_with_place_and_look_are_drawn_in_spawn_order() {
    let map = TileMap::filled(80, 50, TerrainType::Land);
    let mut world = World::new();
    world.spawn(Entity::bare());
    add_player(&mut world, &map);
    let mut ghost = Entity::bare();
    ghost.renderable = Some(Renderable::default());
    world.spawn(ghost);
    let mut mark = Entity::bare();
    mark.position = Some(Position { x: 2, y: 3 });
    world.spawn(mark);
    add_npcs(&mut world);
    let mut frame = Vec::new();
    draw_things(&mut frame, &world);
    let mut expected = vec![DrawOp::Cell {
        x: 40,
        y: 30,
        fg: Color::Yellow,
        bg: Color::Black,
        glyph: '@',
        greyscale: false,
    }];
    for i in 0..8 {
        expected.push(DrawOp::Cell {
            x: i * 10 + 5,
            y: 25,
            fg: Color::Red,
            bg: Color::Black,
            glyph: '\u{263A}',
            greyscale: false,
        });
    }
    assert_eq!(frame, expected);
}

#[test]
fn cursor_highlights_its_cell_and_the_edges_in_line() {
    let map = TileMap::filled(80, 50, TerrainType::Land);
    let mut world = World::new();
    let mut cursor = Entity::bare();
    cursor.cursor = Some(Cursor);
    cursor.position = Some(Position { x: 12, y: 7 });
    world.spawn(cursor);
    let mut other = Entity::bare();
    other.position = Some(Position { x: 1, y: 1 });
    world.spawn(other);
    let mut placeless = Entity::bare();
    placeless.cursor = Some(Cursor);
    world.spawn(placeless);
    let mut frame = Vec::new();
    draw_cursor(&mut frame, &world, &map);
    let y = Color::Yellow;
    assert_eq!(
        frame,
        vec![
            DrawOp::Background { x: 12, y: 0, bg: y },
            DrawOp::Background { x: 12, y: 49, bg: y },
            DrawOp::Background { x: 0, y: 7, bg: y },
            DrawOp::Background { x: 79, y: 7, bg: y },
            DrawOp::Background { x: 12, y: 7, bg: y },
        ]
    );
}

#[test]
fn default_look_is_the_null_glyph_on_black() {
    assert_eq!(
        Renderable::default(),
        Renderable { glyph: '\0', fg: Color::Black, bg: Color::Black }
    );
}
