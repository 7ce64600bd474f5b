use dungeon_crawl::components::{
    AggressionIntent, ArchetypeId, Damage, Position, Strength, HP,
};
use dungeon_crawl::dungeon::{BSPNode, Rect};
use dungeon_crawl::game::Game;
use dungeon_crawl::map::TileMap;
use dungeon_crawl::systems::{
    key_event, AggressionSystem, DamageSystem, Direction, EnemyAISystem, InputEvent,
    InputSystem,
};
use dungeon_crawl::world::{Table, World};

fn open_map(width: usize, height: usize) -> TileMap {
    let mut map = TileMap::new(width, height);
    for y in 1..height - 1 {
        for x in 1..width - 1 {
            map.set_tile(x, y, '.');
        }
    }
    map
}

fn row_table(id: ArchetypeId, entity: usize, pos: Position, hp: usize, strength: usize) -> Table {
    let mut t = Table::new(id.key());
    t.push_row(entity, Some(pos), Some(HP(hp)), Some(Strength(strength)), None);
    t
}

fn duel_world(player_at: Position, enemy_at: Position, enemy_strength: usize) -> World {
    let mut world = World::new(open_map(8, 8));
    world.tables.push(row_table(ArchetypeId::Player, 0, player_at, 10, 2));
    world.tables.push(row_table(ArchetypeId::Enemy, 1, enemy_at, 6, enemy_strength));
    world.next_entity = 2;
    world
}

#[test]
fn colocated_hostile_and_player_fight_once() {
    for _ in 0..50 {
        let mut world = duel_world(Position::new(2, 2), Position::new(2, 2), 3);
        AggressionSystem::run(&mut world);
        assert_eq!(world.tables[0].aggression_intents[0], Some(AggressionIntent(1)));
        assert_eq!(world.tables[1].aggression_intents[0], Some(AggressionIntent(0)));
        DamageSystem::run(&mut world);
        let lost = 10 - world.tables[0].hitpoints[0].0;
        assert!(lost <= 3);
        let enemy_lost = 6 - world.tables[1].hitpoints[0].0;
        assert!(enemy_lost <= 2);
        assert!(world.tables[0].aggression_intents[0].is_none());
        assert!(world.tables[1].aggression_intents[0].is_none());
    }
}

#[test]
fn apart_hostile_does_not_engage() {
    let mut world = duel_world(Position::new(2, 2), Position::new(4, 4), 3);
    AggressionSystem::run(&mut world);
    assert!(world.tables[0].aggression_intents[0].is_none());
    assert!(world.tables[1].aggression_intents[0].is_none());
    AggressionSystem::run2(&mut world);
    assert!(world.tables[1].aggression_intents[0].is_none());
}

#[test]
fn player_targets_last_of_several_attackers() {
    let mut world = duel_world(Position::new(3, 3), Position::new(3, 3), 1);
    world.tables[1].push_row(5, Some(Position::new(3, 3)), Some(HP(6)), Some(Strength(1)), None);
    world.tables[1].push_row(6, Some(Position::new(1, 1)), Some(HP(6)), Some(Strength(1)), None);
    world.next_entity = 7;
    AggressionSystem::run2(&mut world);
    assert_eq!(world.tables[0].aggression_intents[0], Some(AggressionIntent(5)));
    assert_eq!(world.tables[1].aggression_intents[0], Some(AggressionIntent(0)));
    assert_eq!(world.tables[1].aggression_intents[1], Some(AggressionIntent(0)));
    assert!(world.tables[1].aggression_intents[2].is_none());
}

#[test]
fn aggression_without_player_is_noop() {
    let mut world = World::new(open_map(6, 6));
    world.spawn_enemy();
    let before = format!("{:?}", world.tables);
    AggressionSystem::run(&mut world);
    assert_eq!(format!("{:?}", world.tables), before);
}

#[test]
fn damage_roll_stays_within_strength() {
    for _ in 0..200 {
        let d = DamageSystem::calculate_damage(&Strength(3));
        assert!(d.0 <= 3);
        let one = DamageSystem::calculate_damage(&Strength(1));
        assert!(one.0 == 0 || one.0 == 1);
    }
    assert_eq!(DamageSystem::calculate_damage(&Strength(0)), Damage(0));
}

#[test]
fn damage_from_rolls_values() {
    assert_eq!(DamageSystem::damage_from_rolls(&Strength(3), false, 0), Damage(1));
    assert_eq!(DamageSystem::damage_from_rolls(&Strength(3), false, 2), Damage(3));
    assert_eq!(DamageSystem::damage_from_rolls(&Strength(3), true, 2), Damage(0));
    assert_eq!(DamageSystem::damage_from_rolls(&Strength(1), false, 0), Damage(1));
    assert_eq!(DamageSystem::damage_from_rolls(&Strength(0), false, 5), Damage(0));
}

#[test]
fn move_into_wall_is_refused() {
    let mut world = duel_world(Position::new(1, 1), Position::new(5, 5), 1);
    let moved = InputSystem::run(&mut world, InputEvent::Move(Direction::Up));
    assert!(!moved);
    assert_eq!(world.tables[0].positions[0], Position::new(1, 1));
    let moved = InputSystem::run(&mut world, InputEvent::Move(Direction::Left));
    assert!(!moved);
    assert_eq!(world.tables[0].positions[0], Position::new(1, 1));
}

#[test]
fn move_onto_floor_is_committed() {
    let mut world = duel_world(Position::new(1, 1), Position::new(5, 5), 1);
    assert!(InputSystem::run(&mut world, InputEvent::Move(Direction::Right)));
    assert_eq!(world.tables[0].positions[0], Position::new(2, 1));
    assert!(InputSystem::run(&mut world, InputEvent::Move(Direction::Down)));
    assert_eq!(world.tables[0].positions[0], Position::new(2, 2));
    assert_eq!(world.tables[1].positions[0], Position::new(5, 5));
}

#[test]
fn move_at_grid_edge_clamps_at_zero() {
    let mut map = TileMap::new(3, 3);
    map.set_tile(0, 0, '.');
    let mut world = World::new(map);
    world.tables.push(row_table(ArchetypeId::Player, 0, Position::new(0, 0), 10, 2));
    world.next_entity = 1;
    assert!(!InputSystem::run(&mut world, InputEvent::Move(Direction::Up)));
    assert_eq!(world.tables[0].positions[0], Position::new(0, 0));
}

#[test]
fn non_move_events_change_nothing() {
    let mut world = duel_world(Position::new(1, 1), Position::new(5, 5), 1);
    for e in [InputEvent::Idle, InputEvent::Other, InputEvent::Exit] {
        assert!(!InputSystem::run(&mut world, e));
        assert_eq!(world.tables[0].positions[0], Position::new(1, 1));
    }
}

#[test]
fn input_is_deterministic() {
    for d in [Direction::Up, Direction::Left, Direction::Down, Direction::Right] {
        let mut a = duel_world(Position::new(3, 2), Position::new(5, 5), 1);
        let mut b = duel_world(Position::new(3, 2), Position::new(5, 5), 1);
        let ra = InputSystem::run(&mut a, InputEvent::Move(d));
        let rb = InputSystem::run(&mut b, InputEvent::Move(d));
        assert_eq!(ra, rb);
        assert_eq!(a.tables[0].positions, b.tables[0].positions);
    }
}

#[test]
fn keys_map_to_events() {
    assert_eq!(key_event('w'), InputEvent::Move(Direction::Up));
    assert_eq!(key_event('W'), InputEvent::Move(Direction::Up));
    assert_eq!(key_event('a'), InputEvent::Move(Direction::Left));
    assert_eq!(key_event('S'), InputEvent::Move(Direction::Down));
    assert_eq!(key_event('d'), InputEvent::Move(Direction::Right));
    assert_eq!(key_event('x'), InputEvent::Other);
}

#[test]
fn enemy_chases_along_larger_gap() {
    let mut world = duel_world(Position::new(1, 2), Position::new(5, 3), 1);
    EnemyAISystem::run2(&mut world);
    assert_eq!(world.tables[1].positions[0], Position::new(4, 3));
    world.tables[1].positions[0] = Position::new(2, 5);
    EnemyAISystem::run2(&mut world);
    assert_eq!(world.tables[1].positions[0], Position::new(2, 4));
    assert_eq!(world.tables[0].positions[0], Position::new(1, 2));
}

#[test]
fn enemy_does_not_step_into_wall() {
    let mut map = open_map(8, 8);
    map.set_tile(4, 3, '#');
    let mut world = World::new(map);
    world.tables.push(row_table(ArchetypeId::Player, 0, Position::new(1, 3), 10, 2));
    world.tables.push(row_table(ArchetypeId::Enemy, 1, Position::new(5, 3), 6, 1));
    world.next_entity = 2;
    EnemyAISystem::run2(&mut world);
    assert_eq!(world.tables[1].positions[0], Position::new(5, 3));
}

#[test]
fn heuristic_is_manhattan_distance() {
    assert_eq!(EnemyAISystem::heuristic(&Position::new(1, 5), &Position::new(4, 2)), 6);
    assert_eq!(EnemyAISystem::heuristic(&Position::new(3, 3), &Position::new(3, 3)), 0);
}

#[test]
fn map_coordinates() {
    let mut map = TileMap::new(4, 3);
    assert_eq!(map.rows(), 3);
    assert_eq!(map.columns(), 4);
    assert_eq!(map.xy_idx(1, 2), 9);
    assert_eq!(map.idx_xy(9), (2, 1));
    assert_eq!(map.get_tile(12), None);
    assert_eq!(map.get_tile(0), Some('#'));
    map.set_tile(1, 2, '.');
    map.set_tile(7, 0, '.');
    assert_eq!(map.get_tile(9), Some('.'));
    assert!(map.is_walkable(1, 2));
    assert!(!map.is_walkable(1, 1));
    assert!(!map.is_walkable(9, 0));
    assert_eq!(map.get_tiles().iter().filter(|c| **c == '.').count(), 1);
    assert_eq!(map.walkable_positions(), vec![Position::new(1, 2)]);
}

#[test]
fn rect_geometry() {
    let a = Rect::new(0, 0, 4, 4);
    assert_eq!(a.center(), (2, 2));
    assert!(a.intersects(&Rect::new(4, 4, 2, 2)));
    assert!(!a.intersects(&Rect::new(5, 0, 2, 2)));
}

#[test]
fn dungeon_carves_rooms_inside_map() {
    let mut map = TileMap::new(30, 20);
    BSPNode::create_dungeon(&mut map, 3);
    assert_eq!(map.columns(), 30);
    assert_eq!(map.rows(), 20);
    assert!(!map.walkable_positions().is_empty());
    let mut root = BSPNode::root(&map);
    assert!(root.is_leaf());
    root.split_recursively(2);
    assert!(!root.is_leaf());
    let rooms = root.carve_all_rooms();
    for (i, r) in rooms.iter().enumerate() {
        assert!(r.x + r.width <= 30 && r.y + r.height <= 20);
        for s in &rooms[i + 1..] {
            assert!(!r.intersects(s));
        }
    }
    let mut collected = vec![];
    root.collect_rooms(&mut collected);
    assert_eq!(collected, rooms);
}

#[test]
fn game_starts_with_player_and_enemy() {
    let mut game = Game::new(10, 10, 0).unwrap();
    assert_eq!(game.world().tables.len(), 2);
    game.update(InputEvent::Idle);
    assert!(Game::new(2, 2, 0).is_err());
}

#[test]
fn enemy_paths_around_wall() {
    // A wall between enemy and player with a gap at the bottom row.
    let mut map = open_map(7, 6);
    map.set_tile(3, 1, '#');
    map.set_tile(3, 2, '#');
    map.set_tile(3, 3, '#');
    let mut world = World::new(map);
    world.tables.push(row_table(ArchetypeId::Player, 0, Position::new(1, 1), 10, 2));
    world.tables.push(row_table(ArchetypeId::Enemy, 1, Position::new(5, 1), 6, 1));
    world.next_entity = 2;
    let mut trail = vec![];
    for _ in 0..10 {
        EnemyAISystem::run(&mut world);
        trail.push(world.tables[1].positions[0]);
    }
    for p in &trail {
        assert!(world.map.is_walkable(p.x, p.y));
    }
    // Shortest path: 5 steps down-and-around to reach row 4, then across and up: 10 steps.
    assert_eq!(trail[9], Position::new(1, 1));
    assert_eq!(trail[8], Position::new(1, 2));
    assert_eq!(world.tables[0].positions[0], Position::new(1, 1));
}

#[test]
fn enemy_without_path_stays() {
    let mut map = open_map(7, 5);
    for y in 0..5 {
        map.set_tile(3, y, '#');
    }
    let mut world = World::new(map);
    world.tables.push(row_table(ArchetypeId::Player, 0, Position::new(1, 1), 10, 2));
    world.tables.push(row_table(ArchetypeId::Enemy, 1, Position::new(5, 2), 6, 1));
    world.next_entity = 2;
    EnemyAISystem::run(&mut world);
    assert_eq!(world.tables[1].positions[0], Position::new(5, 2));
}

#[test]
fn adjacent_squares_are_walkable_neighbours() {
    let mut map = open_map(5, 5);
    map.set_tile(2, 1, '#');
    let mut list = vec![Position::new(9, 9)];
    EnemyAISystem::add_valids_adjacent_squares(&map, &Position::new(2, 2), &mut list);
    assert_eq!(
        list,
        vec![Position::new(9, 9), Position::new(1, 2), Position::new(3, 2), Position::new(2, 3)]
    );
}

#[test]
fn damage_rolls_cover_the_whole_range() {
    let mut seen = [false; 4];
    for _ in 0..2000 {
        let d = DamageSystem::calculate_damage(&Strength(3));
        seen[d.0] = true;
    }
    // A miss (zero) comes one time in twenty; every value of 1..=3 comes about a third of the rest.
    assert_eq!(seen, [true, true, true, true]);
}

#[test]
fn traversal_visits_every_node_in_pre_order() {
    let map = TileMap::new(40, 12);
    let mut root = BSPNode::root(&map);
    root.split_recursively(2);
    let mut seen: Vec<Rect> = vec![];
    root.traverse_pre_order(&mut |n: &BSPNode| seen.push(n.rect));
    assert_eq!(seen[0], Rect::new(0, 0, 40, 12));
    assert_eq!(seen.len(), 7);
    let left = root.left.as_ref().unwrap();
    assert_eq!(seen[1], left.rect);
}

#[test]
fn map_is_drawn_one_line_down() {
    assert_eq!(dungeon_crawl::systems::RenderSystem::render_xy(3, 0), (3, 1));
    assert_eq!(dungeon_crawl::systems::RenderSystem::render_xy(0, 7), (0, 8));
}

#[test]
fn game_from_map_spawns_player_then_enemy() {
    let game = Game::from_map(open_map(6, 6)).unwrap();
    let world = game.world();
    assert_eq!(world.next_entity, 2);
    assert_eq!(world.tables.len(), 2);
    assert_eq!(world.tables[0].key, ArchetypeId::Player.key());
    assert_eq!(world.tables[0].entities, vec![0]);
    assert_eq!(world.tables[1].entities, vec![1]);
    assert!(Game::from_map(TileMap::new(6, 6)).is_err());
}

#[test]
fn enemy_on_player_tile_stays() {
    let mut world = duel_world(Position::new(3, 3), Position::new(3, 3), 1);
    EnemyAISystem::run(&mut world);
    assert_eq!(world.tables[1].positions[0], Position::new(3, 3));
}

#[test]
fn enemy_ties_break_left_right_up_down() {
    // Player diagonal to the enemy: left and up are both one step nearer; left wins.
    let mut world = duel_world(Position::new(2, 2), Position::new(3, 3), 1);
    EnemyAISystem::run(&mut world);
    assert_eq!(world.tables[1].positions[0], Position::new(2, 3));
}

#[test]
fn single_leaf_gets_room_with_one_tile_margin() {
    let map = TileMap::new(10, 8);
    let mut root = BSPNode::root(&map);
    let rooms = root.carve_all_rooms();
    assert_eq!(rooms, vec![Rect::new(1, 1, 8, 6)]);
    assert_eq!(root.room, Some(Rect::new(1, 1, 8, 6)));
}

#[test]
fn dungeon_has_only_walls_and_floor() {
    let mut map = TileMap::new(24, 16);
    BSPNode::create_dungeon(&mut map, 2);
    assert!(map.get_tiles().iter().all(|c| *c == '#' || *c == '.'));
    assert!(map.get_tiles().iter().any(|c| *c == '.'));
}
