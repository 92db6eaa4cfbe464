use far_from_fatality::level::{
    check_for_room_clear, enemy_dead, no_health, plan_level, Arrivals, Clearing, Contents, GameData, LevelPlan,
    RoomType,
};
use far_from_fatality::room::{
    blocks_from_draw, generate_room, is_passable, is_walkable, layout_room, place_draw, same_door,
    COMBAT_ROOM, PUZZLE_ROOM, ROOM, STANDARD_ROOM,
};
use far_from_fatality::tiles::{
    animate_button, animate_door, contents_from_draws, puzzle_from_draws, room_contents, spawn_empty_contents,
    spawn_room_contents, spawn_room_shell, BoxSize, Depth, TileKind, TileSet, TileSpawn,
};

fn count(room: &[[usize; 10]; 8], tile: usize) -> usize {
    room.iter().flatten().filter(|&&t| t == tile).count()
}

#[test]
fn walkable_tiles() {
    for t in [10, 11, 15, 16, 17, 18, 19, 29, 30] {
        assert!(is_walkable(t), "{t}");
    }
    for t in [0, 8, 9, 14, 20, 28, 33, 34, 35, 36] {
        assert!(!is_walkable(t), "{t}");
    }
}

#[test]
fn door_pairs_compare() {
    assert!(same_door(PUZZLE_ROOM, (24, 25)));
    assert!(!same_door(PUZZLE_ROOM, COMBAT_ROOM));
}

#[test]
fn layout_of_an_open_room() {
    let room = layout_room(&[15; 36], 42, STANDARD_ROOM, 0, 0);
    // rows are counted from the bottom
    assert_eq!(room[0], ROOM[7]);
    assert_eq!(room[7], [0, 1, 1, 2, 3, 4, 5, 1, 1, 6]);
    assert_eq!(room[6], ROOM[1]);
    assert_eq!(count(&room, 15), 36);
}

#[test]
fn layout_places_fill_column_by_column() {
    let mut fill = [15; 36];
    fill[0] = 28;
    fill[7] = 29;
    let room = layout_room(&fill, 42, PUZZLE_ROOM, 0, 0);
    // the first floor cell of the first inner column is its lowest one
    assert_eq!(room[1][1], 28);
    // an inner column holds five floor cells: the eighth is the third of the second column
    assert_eq!(room[3][2], 29);
    assert_eq!(room[7][4], 24);
    assert_eq!(room[7][5], 25);
}

#[test]
fn layout_places_the_wall_button() {
    let room = layout_room(&[15; 36], 42, PUZZLE_ROOM, 2, 1);
    assert_eq!(room[6], [7, 8, 35, 9, 10, 11, 12, 8, 8, 13]);
    let room = layout_room(&[15; 36], 42, PUZZLE_ROOM, 2, 3);
    assert_eq!(room[6], [7, 8, 8, 9, 10, 11, 12, 8, 35, 13]);
    // no wall button outside wall-button puzzles
    let room = layout_room(&[15; 36], 42, STANDARD_ROOM, 2, 1);
    assert_eq!(room[6], ROOM[1]);
}

#[test]
fn open_rooms_are_passable() {
    let room = layout_room(&[15; 36], 42, STANDARD_ROOM, 0, 0);
    assert!(is_passable(&room, STANDARD_ROOM));
    let room = layout_room(&[15; 36], 42, COMBAT_ROOM, 0, 0);
    assert!(is_passable(&room, COMBAT_ROOM));
}

#[test]
fn puzzle_room_without_button_is_not_passable() {
    let room = layout_room(&[15; 36], 42, PUZZLE_ROOM, 0, 0);
    assert!(!is_passable(&room, PUZZLE_ROOM));
}

#[test]
fn blocked_room_is_not_passable() {
    // a full row of blocks across the room
    let mut room = layout_room(&[15; 36], 42, STANDARD_ROOM, 0, 0);
    for x in 1..9 {
        room[3][x] = 28;
    }
    assert!(!is_passable(&room, STANDARD_ROOM));
}

#[test]
fn generated_rooms_are_passable() {
    for _ in 0..20 {
        let room = generate_room(42, STANDARD_ROOM, 0, 0).unwrap();
        assert!(is_passable(&room, STANDARD_ROOM));
        let blocks = count(&room, 28);
        assert!((9..=23).contains(&blocks), "{blocks}");
        assert_eq!(count(&room, 29), 0);

        let room = generate_room(42, COMBAT_ROOM, 0, 0).unwrap();
        assert!(is_passable(&room, COMBAT_ROOM));
        let blocks = count(&room, 28);
        assert!((2..=5).contains(&blocks), "{blocks}");

        let room = generate_room(42, PUZZLE_ROOM, 1, 0).unwrap();
        assert!(is_passable(&room, PUZZLE_ROOM));
        assert_eq!(count(&room, 29), 1);

        let room = generate_room(42, PUZZLE_ROOM, 2, 2).unwrap();
        assert!(is_passable(&room, PUZZLE_ROOM));
        assert_eq!(count(&room, 29), 0);
        assert_eq!(room[6][7], 35);
    }
}

fn kinds(spawns: &[TileSpawn], kind: TileKind) -> usize {
    spawns.iter().filter(|s| s.kind == kind).count()
}

#[test]
fn contents_of_an_open_standard_room() {
    let room = layout_room(&[15; 36], 42, STANDARD_ROOM, 0, 0);
    let spawns = room_contents(&room, STANDARD_ROOM, TileSet::Dungeon);
    assert_eq!(spawns.len(), 44);
    assert_eq!(
        spawns[0],
        TileSpawn { column: 1, row: 1, index: 15, kind: TileKind::Floor, depth: Depth::Ground, collider: None }
    );
    assert_eq!(kinds(&spawns, TileKind::Floor), 36);
    assert_eq!(kinds(&spawns, TileKind::Carpet), 4);
    assert_eq!(kinds(&spawns, TileKind::Door), 2);
    assert_eq!(kinds(&spawns, TileKind::ClosedDoor), 0);
    // door tops go with the contents, without a collider
    let tops: Vec<&TileSpawn> = spawns.iter().filter(|s| s.kind == TileKind::Block).collect();
    assert_eq!(tops.len(), 2);
    assert_eq!(tops[0].index, 3);
    assert_eq!(tops[0].collider, None);
}

#[test]
fn closed_doors_except_in_standard_and_pvp_rooms() {
    let room = layout_room(&[15; 36], 42, PUZZLE_ROOM, 0, 0);
    let spawns = room_contents(&room, PUZZLE_ROOM, TileSet::Dungeon);
    assert_eq!(spawns.len(), 46);
    let closed: Vec<&TileSpawn> = spawns.iter().filter(|s| s.kind == TileKind::ClosedDoor).collect();
    assert_eq!(closed.len(), 2);
    assert_eq!(closed[0].index, 31);
    assert_eq!(closed[0].depth, Depth::Front);
    assert_eq!(closed[0].collider, Some(BoxSize { width: 80, height: 20 }));
    let spawns = room_contents(&room, PUZZLE_ROOM, TileSet::Pvp);
    assert_eq!(kinds(&spawns, TileKind::ClosedDoor), 0);
}

#[test]
fn contents_of_blocks_and_buttons() {
    let mut fill = [15; 36];
    fill[0] = 28;
    fill[1] = 29;
    let mut room = layout_room(&fill, 42, PUZZLE_ROOM, 2, 0);
    room[3][3] = 30;
    let spawns = room_contents(&room, PUZZLE_ROOM, TileSet::Outside);
    let block = spawns.iter().find(|s| s.index == 28).unwrap();
    assert_eq!((block.column, block.row, block.collider), (1, 1, Some(BoxSize { width: 80, height: 80 })));
    assert_eq!(kinds(&spawns, TileKind::FloorButton), 2);
    let wall_button = spawns.iter().find(|s| s.kind == TileKind::WallButton).unwrap();
    assert_eq!((wall_button.column, wall_button.row, wall_button.index), (1, 6, 35));
    assert_eq!(wall_button.depth, Depth::Raised);
}

#[test]
fn empty_room_contents() {
    let spawns = spawn_empty_contents(42);
    assert_eq!(spawns.len(), 46);
    assert_eq!(kinds(&spawns, TileKind::ClosedDoor), 2);
    let tops: Vec<&TileSpawn> = spawns.iter().filter(|s| s.kind == TileKind::Block).collect();
    assert_eq!(tops.len(), 2);
    assert_eq!(tops[0].index, 33);
    assert_eq!(tops[0].depth, Depth::Raised);
    assert_eq!(tops[0].collider, Some(BoxSize { width: 80, height: 80 }));
}

#[test]
fn shell_walls() {
    let spawns = spawn_room_shell(42);
    assert_eq!(spawns.len(), 36);
    assert!(spawns.iter().all(|s| s.kind == TileKind::Wall && !is_walkable(s.index)));
    let flat = spawns.iter().filter(|s| s.collider == Some(BoxSize { width: 80, height: 25 })).count();
    assert_eq!(flat, 14);
    assert_eq!(spawns[0].column, 0);
    assert_eq!(spawns[0].row, 0);
    assert_eq!(spawns[0].index, 21);
    // a smaller tile set wraps the indexes around
    let wrapped = spawn_room_shell(20);
    assert!(wrapped.iter().all(|s| s.index < 20));
}

#[test]
fn generated_contents() {
    let spawns = spawn_room_contents(42, COMBAT_ROOM, TileSet::Dungeon);
    assert_eq!(kinds(&spawns, TileKind::ClosedDoor), 2);
    assert_eq!(kinds(&spawns, TileKind::Door), 2);
    let spawns = spawn_room_contents(42, STANDARD_ROOM, TileSet::Outside);
    assert_eq!(kinds(&spawns, TileKind::ClosedDoor), 0);
}

#[test]
fn doors_open_when_a_button_is_pressed() {
    assert!(animate_door(&vec![false, true, false]));
    assert!(!animate_door(&vec![false, false]));
    assert!(!animate_door(&vec![]));
}

#[test]
fn button_sprites() {
    assert_eq!(animate_button(false, false), 29);
    assert_eq!(animate_button(false, true), 30);
    assert_eq!(animate_button(true, false), 35);
    assert_eq!(animate_button(true, true), 36);
}

#[test]
fn level_plans() {
    let boss = plan_level(12, true, 1);
    assert_eq!(boss.clearing, Clearing::Floor);
    assert_eq!(boss.arrivals, Arrivals::Boss);
    assert!(matches!(boss.contents, Contents::Empty(TileSet::Dungeon)));
    let first = plan_level(0, false, 1);
    assert!(matches!(first.contents, Contents::Generated { room_type: RoomType::Standard, tile_set: TileSet::Outside }));
    let combat = plan_level(8, false, 1);
    assert_eq!(combat.arrivals, Arrivals::Enemies(1));
    assert!(matches!(combat.contents, Contents::Generated { room_type: RoomType::Combat, tile_set: TileSet::Dungeon }));
    let into_dungeon = plan_level(2, true, 1);
    assert_eq!(into_dungeon.clearing, Clearing::Room);
    assert_eq!(into_dungeon.shell, Some(TileSet::Dungeon));
    let arena = plan_level(13, true, 1);
    assert_eq!(arena.shell, Some(TileSet::Pvp));
    assert!(matches!(arena.contents, Contents::Generated { room_type: RoomType::Combat, tile_set: TileSet::Pvp }));
    assert!(matches!(plan_level(5, true, 1).contents, Contents::Generated { room_type: RoomType::Standard, .. }));
    assert!(matches!(plan_level(5, false, 1).contents, Contents::Generated { room_type: RoomType::Puzzle, .. }));
    assert_eq!(RoomType::Puzzle.doors(), PUZZLE_ROOM);
}

#[test]
fn smaller_enemies_follow_the_number_of_players() {
    for players in 1..=4u32 {
        let mut total = 0;
        for level in 0..14u32 {
            if let Arrivals::Enemies(n) = plan_level(level, level % 2 == 0, players).arrivals {
                total += n;
            }
        }
        assert_eq!(total, players + 1, "{players}");
    }
    assert_eq!(plan_level(4, false, 4).arrivals, Arrivals::Enemies(3));
    assert_eq!(plan_level(8, false, 4).arrivals, Arrivals::Enemies(2));
    assert_eq!(plan_level(4, false, 1).arrivals, Arrivals::Enemies(1));
    assert_eq!(plan_level(8, false, 1).arrivals, Arrivals::Enemies(1));
}

#[test]
fn room_clear_moves_to_the_next_level() {
    let mut game = GameData { room_cleared: false, game_level: 3 };
    assert!(check_for_room_clear(&mut game, 1).is_none());
    assert_eq!(game, GameData { room_cleared: false, game_level: 3 });
    game.room_cleared = true;
    game.game_level = 2;
    let plan: LevelPlan = check_for_room_clear(&mut game, 1).unwrap();
    assert_eq!(game, GameData { room_cleared: false, game_level: 3 });
    assert_eq!(plan.clearing, Clearing::Room);
    assert!(matches!(plan.contents, Contents::Generated { room_type: RoomType::Puzzle, tile_set: TileSet::Dungeon }));
    game.room_cleared = true;
    let plan = check_for_room_clear(&mut game, 1).unwrap();
    assert_eq!(game.game_level, 4);
    assert!(matches!(plan.contents, Contents::Generated { tile_set: TileSet::Dungeon, .. }));
}

#[test]
fn out_of_health_entities_leave() {
    let (removed, open) = no_health(&vec![false, true, true], 1);
    assert_eq!(removed, vec![1, 2]);
    assert!(open);
    let (removed, open) = no_health(&vec![true, false], 3);
    assert_eq!(removed, vec![0]);
    assert!(!open);
    let (removed, open) = no_health(&vec![false], 0);
    assert!(removed.is_empty());
    assert!(!open);
    assert!(enemy_dead(&vec![false, true]));
    assert!(!enemy_dead(&vec![false]));
}

#[test]
fn block_counts_from_draws() {
    assert_eq!(blocks_from_draw(true, 0), 2);
    assert_eq!(blocks_from_draw(true, 7), 5);
    assert_eq!(blocks_from_draw(true, 9), 3);
    assert_eq!(blocks_from_draw(false, 0), 9);
    assert_eq!(blocks_from_draw(false, 14), 23);
    assert_eq!(blocks_from_draw(false, 16), 10);
}

#[test]
fn slot_draws_place_blocks_then_the_button() {
    let mut tiles = [15usize; 36];
    // the first draw lands on slot 37 % 36 == 1
    assert_eq!(place_draw(&mut tiles, 0, 1, true, 37), 1);
    assert_eq!(tiles[1], 28);
    // slot 1 is taken: the draw is lost
    assert_eq!(place_draw(&mut tiles, 1, 1, true, 1), 1);
    assert_eq!(tiles[1], 28);
    // the blocks are placed: the floor button comes next
    assert_eq!(place_draw(&mut tiles, 1, 1, true, 5), 2);
    assert_eq!(tiles[5], 29);
    // everything is placed: nothing more happens
    assert_eq!(place_draw(&mut tiles, 2, 1, true, 6), 2);
    assert_eq!(tiles[6], 15);
}

#[test]
fn puzzles_from_draws() {
    assert_eq!(puzzle_from_draws(0, 0), (0, 0));
    assert_eq!(puzzle_from_draws(5, 7), (2, 3));
    assert_eq!(puzzle_from_draws(9, 9), (0, 1));
}

#[test]
fn contents_from_draws_for_each_puzzle() {
    for (type_draw, place_draw) in [(0, 0), (1, 2), (2, 0), (2, 1), (5, 2), (8, 3)] {
        let spawns = contents_from_draws(42, PUZZLE_ROOM, TileSet::Dungeon, type_draw, place_draw);
        assert_eq!(kinds(&spawns, TileKind::ClosedDoor), 2);
        let buttons = spawns.iter().filter(|s| s.index == 29 || s.index == 35).count();
        assert_eq!(buttons, 1, "{type_draw} {place_draw}");
        let wall_buttons = spawns.iter().filter(|s| s.index == 35).count();
        assert_eq!(wall_buttons, if type_draw % 3 == 2 { 1 } else { 0 });
    }
}

#[test]
fn wall_button_rooms_are_generated_for_every_place() {
    for place in 0..4 {
        let room = generate_room(42, PUZZLE_ROOM, 2, place).unwrap();
        assert!(is_passable(&room, PUZZLE_ROOM));
        assert_eq!(count(&room, 35), 1);
        assert_eq!(count(&room, 29), 0);
    }
}
