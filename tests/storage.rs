use dungeon_crawl::components::{
    AggressionIntent, ArchetypeId, ArchetypeKey, Position, Strength, HP,
};
use dungeon_crawl::map::TileMap;
use dungeon_crawl::systems::{DamageSystem, DeathSystem, InputEvent, Direction};
use dungeon_crawl::world::{SpawnFailure, Table, World};

fn open_map(width: usize, height: usize) -> TileMap {
    let mut map = TileMap::new(width, height);
    for y in 1..height - 1 {
        for x in 1..width - 1 {
            map.set_tile(x, y, '.');
        }
    }
    map
}

fn columns_aligned(t: &Table) -> bool {
    let n = t.entities.len();
    let expect = |present: bool| if present { n } else { 0 };
    t.aggression_intents.len() == n
        && t.positions.len() == expect(t.key.has_position)
        && t.hitpoints.len() == expect(t.key.has_hp)
        && t.strengths.len() == expect(t.key.has_strength)
        && t.loot.len() == expect(t.key.has_loot)
}

fn table_of<'a>(world: &'a World, key: ArchetypeKey) -> Option<&'a Table> {
    world.tables.iter().find(|t| t.key == key)
}

#[test]
fn templates_hold_archetype_defaults() {
    let p = ArchetypeId::Player.template().unwrap();
    assert_eq!(p.default_hp.unwrap().0, 10);
    assert_eq!(p.default_strength.unwrap().0, 2);
    assert!(p.default_loot.is_none());
    let e = ArchetypeId::Enemy.template().unwrap();
    assert_eq!(e.default_hp.unwrap().0, 6);
    assert_eq!(e.default_strength.unwrap().0, 1);
    let c = ArchetypeId::Corpse.template().unwrap();
    assert!(c.default_hp.is_none());
    assert_eq!(c.default_loot.unwrap().0, vec![0]);
}

#[test]
fn keys_describe_columns() {
    let p = ArchetypeId::Player.key();
    assert!(p.has_position && p.is_controllable && !p.is_hostile && p.has_hp && p.has_strength);
    let e = ArchetypeId::Enemy.key();
    assert!(e.is_hostile && !e.is_controllable && e.has_hp && e.has_strength && !e.has_loot);
    let c = ArchetypeId::Corpse.key();
    assert!(c.has_loot && c.has_position && !c.has_hp && !c.has_strength);
    assert_ne!(p, e);
}

#[test]
fn spawn_appends_aligned_row_on_walkable_tile() {
    let mut world = World::new(open_map(6, 5));
    let id = world.spawn_from_archetype(ArchetypeId::Enemy).unwrap();
    assert_eq!(id, 0);
    assert_eq!(world.next_entity, 1);
    let t = table_of(&world, ArchetypeId::Enemy.key()).unwrap();
    assert!(columns_aligned(t));
    assert_eq!(t.entities, vec![0]);
    assert_eq!(t.hitpoints[0], HP(6));
    assert_eq!(t.strengths[0], Strength(1));
    assert!(t.aggression_intents[0].is_none());
    assert!(world.map.is_walkable(t.positions[0].x, t.positions[0].y));
}

#[test]
fn spawn_picks_the_only_walkable_tile() {
    let mut map = TileMap::new(4, 4);
    map.set_tile(2, 1, '.');
    let mut world = World::new(map);
    world.spawn_from_archetype(ArchetypeId::Player).unwrap();
    let t = table_of(&world, ArchetypeId::Player.key()).unwrap();
    assert_eq!(t.positions[0], Position::new(2, 1));
}

#[test]
fn spawn_corpse_carries_loot() {
    let mut world = World::new(open_map(5, 5));
    world.spawn_from_archetype(ArchetypeId::Corpse).unwrap();
    let t = table_of(&world, ArchetypeId::Corpse.key()).unwrap();
    assert!(columns_aligned(t));
    assert_eq!(t.loot[0].0, vec![0]);
    assert!(t.hitpoints.is_empty());
}

#[test]
fn spawn_without_walkable_tile_fails() {
    let mut world = World::new(TileMap::new(5, 5));
    let r = world.spawn_from_archetype(ArchetypeId::Player);
    assert_eq!(r, Err(SpawnFailure::NoWalkableTile));
    assert!(world.tables.is_empty());
    assert_eq!(world.next_entity, 0);
}

#[test]
fn initialize_spawns_player_and_enemy() {
    let mut world = World::new(open_map(8, 8));
    world.initialize();
    assert_eq!(world.tables.len(), 2);
    assert_eq!(table_of(&world, ArchetypeId::Player.key()).unwrap().entities, vec![0]);
    assert_eq!(table_of(&world, ArchetypeId::Enemy.key()).unwrap().entities, vec![1]);
    assert_eq!(world.spawn_player(), 2);
    assert_eq!(world.spawn_enemy(), 3);
}

#[test]
fn columns_stay_aligned_over_ticks() {
    let mut world = World::new(open_map(8, 8));
    world.initialize();
    world.spawn_enemy();
    let events = [
        InputEvent::Move(Direction::Up),
        InputEvent::Idle,
        InputEvent::Move(Direction::Left),
        InputEvent::Other,
        InputEvent::Move(Direction::Down),
        InputEvent::Move(Direction::Right),
    ];
    for _ in 0..5 {
        for e in events {
            for t in &world.tables {
                assert!(columns_aligned(t));
            }
            world.update(e);
            for t in &world.tables {
                assert!(columns_aligned(t));
            }
        }
    }
}

#[test]
fn zeroed_entities_are_removed_and_ids_not_reused() {
    let mut world = World::new(open_map(8, 8));
    world.spawn_player();
    let mut ids = vec![];
    for _ in 0..4 {
        ids.push(world.spawn_enemy());
    }
    let enemy_key = ArchetypeId::Enemy.key();
    let player_key = ArchetypeId::Player.key();
    let ei = world.tables.iter().position(|t| t.key == enemy_key).unwrap();
    for hp in world.tables[ei].hitpoints.iter_mut() {
        *hp = HP(0);
    }
    let player_len = table_of(&world, player_key).unwrap().entities.len();
    DeathSystem::run(&mut world);
    assert_eq!(world.tables[ei].entities.len(), 0);
    assert!(columns_aligned(&world.tables[ei]));
    assert_eq!(table_of(&world, player_key).unwrap().entities.len(), player_len);
    let fresh = world.spawn_enemy();
    assert!(!ids.contains(&fresh));
    assert_eq!(fresh, 5);
}

#[test]
fn death_removes_only_dead_rows_in_order() {
    let mut world = World::new(open_map(8, 8));
    for _ in 0..4 {
        world.spawn_enemy();
    }
    let t = &mut world.tables[0];
    t.hitpoints[1] = HP(0);
    t.hitpoints[3] = HP(0);
    t.aggression_intents[2] = Some(AggressionIntent(7));
    DeathSystem::run(&mut world);
    let t = &world.tables[0];
    assert_eq!(t.entities, vec![0, 2]);
    assert_eq!(t.hitpoints, vec![HP(6), HP(6)]);
    assert_eq!(t.aggression_intents, vec![None, Some(AggressionIntent(7))]);
    assert!(columns_aligned(t));
}

#[test]
fn damage_without_intents_changes_nothing() {
    let mut world = World::new(open_map(8, 8));
    world.initialize();
    world.spawn_enemy();
    let before = format!("{:?}", world.tables);
    DamageSystem::run(&mut world);
    assert_eq!(format!("{:?}", world.tables), before);
}

#[test]
fn one_damage_kills_entity_with_one_hp() {
    let mut world = World::new(open_map(8, 8));
    world.spawn_player();
    let target = world.spawn_enemy();
    world.spawn_enemy();
    let ei = world.tables.iter().position(|t| t.key == ArchetypeId::Enemy.key()).unwrap();
    world.tables[ei].hitpoints[0] = HP(1);
    DamageSystem::apply(&mut world, &vec![(target, dungeon_crawl::components::Damage(1))]);
    assert_eq!(world.tables[ei].hitpoints[0], HP(0));
    assert_eq!(world.tables[ei].hitpoints[1], HP(6));
    DeathSystem::run(&mut world);
    assert_eq!(world.tables[ei].entities.len(), 1);
    assert_eq!(world.tables[ei].entities, vec![target + 1]);
}

#[test]
fn damage_floors_hit_points_at_zero() {
    let mut world = World::new(open_map(8, 8));
    let id = world.spawn_enemy();
    DamageSystem::apply(
        &mut world,
        &vec![
            (id, dungeon_crawl::components::Damage(4)),
            (id, dungeon_crawl::components::Damage(4)),
            (id + 1, dungeon_crawl::components::Damage(9)),
        ],
    );
    assert_eq!(world.tables[0].hitpoints[0], HP(0));
}

#[test]
fn ensure_table_finds_or_creates() {
    let mut world = World::new(open_map(5, 5));
    let a = world.ensure_table(ArchetypeId::Enemy.key());
    assert_eq!(a, 0);
    assert_eq!(world.tables.len(), 1);
    assert!(world.tables[0].entities.is_empty());
    let b = world.ensure_table(ArchetypeId::Player.key());
    assert_eq!(b, 1);
    assert_eq!(world.ensure_table(ArchetypeId::Enemy.key()), 0);
    assert_eq!(world.tables.len(), 2);
}

#[test]
fn remove_row_drops_one_aligned_row() {
    let mut t = Table::new(ArchetypeId::Enemy.key());
    t.push_row(4, Some(Position::new(1, 1)), Some(HP(6)), Some(Strength(1)), None);
    t.push_row(5, Some(Position::new(2, 1)), Some(HP(3)), Some(Strength(2)), None);
    t.remove_row(0);
    assert_eq!(t.len(), 1);
    assert_eq!(t.entities, vec![5]);
    assert_eq!(t.positions, vec![Position::new(2, 1)]);
    assert_eq!(t.strengths, vec![Strength(2)]);
    assert!(columns_aligned(&t));
}
