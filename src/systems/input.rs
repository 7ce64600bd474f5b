use vstd::prelude::*;

use crate::components::{ArchetypeKey, Position};
use crate::map::TileMap;
use crate::world::{tables_wf, Table, TableView, World};

verus! {

/// A direction of movement on the grid.
#[derive(PartialEq, Eq, Structural, Clone, Copy, Debug)]
pub enum Direction {
    Up,
    Left,
    Down,
    Right,
}

/// The input of one tick, reduced to what the simulation reads.
#[derive(PartialEq, Eq, Structural, Clone, Copy, Debug)]
pub enum InputEvent {
    /// No event was pending.
    Idle,
    /// A movement key.
    Move(Direction),
    /// The exit key: the driver shuts down.
    Exit,
    /// Any other event; ignored.
    Other,
}

/// The event of a typed character: `w`, `a`, `s`, `d` in either case move up, left,
/// down and right; anything else is ignored.
pub open spec fn key_event_spec(c: char) -> InputEvent {
    if c == 'w' || c == 'W' {
        InputEvent::Move(Direction::Up)
    } else if c == 'a' || c == 'A' {
        InputEvent::Move(Direction::Left)
    } else if c == 's' || c == 'S' {
        InputEvent::Move(Direction::Down)
    } else if c == 'd' || c == 'D' {
        InputEvent::Move(Direction::Right)
    } else {
        InputEvent::Other
    }
}

pub fn key_event(c: char) -> (r: InputEvent)
    ensures
        r == key_event_spec(c),
{
    if c == 'w' || c == 'W' {
        InputEvent::Move(Direction::Up)
    } else if c == 'a' || c == 'A' {
        InputEvent::Move(Direction::Left)
    } else if c == 's' || c == 'S' {
        InputEvent::Move(Direction::Down)
    } else if c == 'd' || c == 'D' {
        InputEvent::Move(Direction::Right)
    } else {
        InputEvent::Other
    }
}

/// The tile one step from `p` in direction `d`, clamped at zero.
pub open spec fn step(p: Position, d: Direction) -> (int, int) {
    match d {
        Direction::Up => (p.x as int, if p.y == 0 { 0 } else { p.y - 1 }),
        Direction::Left => (if p.x == 0 { 0 } else { p.x - 1 }, p.y as int),
        Direction::Down => (p.x as int, p.y + 1),
        Direction::Right => (p.x + 1, p.y as int),
    }
}

/// Whether the step from `p` in direction `d` reaches another tile, and a walkable one.
pub open spec fn can_step(p: Position, d: Direction, map: TileMap) -> bool {
    let (x, y) = step(p, d);
    (x, y) != (p.x as int, p.y as int) && map.walkable(x, y)
}

/// Where `p` is after trying to step in direction `d`.
pub open spec fn stepped(p: Position, d: Direction, map: TileMap) -> Position {
    if can_step(p, d, map) {
        Position { x: step(p, d).0 as usize, y: step(p, d).1 as usize }
    } else {
        p
    }
}

/// Whether the rows of a table follow the player's input.
pub open spec fn is_controlled(k: ArchetypeKey) -> bool {
    k.is_controllable && k.has_position
}

/// A table after every controlled row tried one step in direction `d`.
pub open spec fn moved_table(t: TableView, d: Direction, map: TileMap) -> TableView {
    if is_controlled(t.key) {
        TableView { positions: t.positions.map_values(|p: Position| stepped(p, d, map)), ..t }
    } else {
        t
    }
}

/// Whether some controlled row can take the step.
pub open spec fn any_step(ts: Seq<TableView>, d: Direction, map: TileMap) -> bool {
    exists|i: int, j: int|
        0 <= i < ts.len() && is_controlled(ts[i].key) && 0 <= j < ts[i].positions.len()
            && can_step(#[trigger] ts[i].positions[j], d, map)
}

/// The tables after the input system handles `event`.
pub open spec fn input_outcome(ts: Seq<TableView>, map: TileMap, event: InputEvent) -> Seq<
    TableView,
> {
    match event {
        InputEvent::Move(d) => ts.map_values(|t: TableView| moved_table(t, d, map)),
        _ => ts,
    }
}

/// Two runs of the input system on the same tables, map and event end in the same tables.
pub proof fn lemma_input_deterministic(
    ts: Seq<TableView>,
    map: TileMap,
    event: InputEvent,
    after1: Seq<TableView>,
    after2: Seq<TableView>,
)
    requires
        after1 == input_outcome(ts, map, event),
        after2 == input_outcome(ts, map, event),
    ensures
        after1 == after2,
{
}

/// The tile one step from `p`, or none where the coordinate would leave `usize`.
fn destination(p: Position, d: Direction) -> (r: Option<Position>)
    ensures
        r.is_some() ==> step(p, d) == (r.unwrap().x as int, r.unwrap().y as int),
        r.is_none() ==> (d == Direction::Down && p.y == usize::MAX) || (d == Direction::Right
            && p.x == usize::MAX),
{
    match d {
        Direction::Up => Some(Position::new(p.x, if p.y == 0 { 0 } else { p.y - 1 })),
        Direction::Left => Some(Position::new(if p.x == 0 { 0 } else { p.x - 1 }, p.y)),
        Direction::Down => if p.y == usize::MAX {
            None
        } else {
            Some(Position::new(p.x, p.y + 1))
        },
        Direction::Right => if p.x == usize::MAX {
            None
        } else {
            Some(Position::new(p.x + 1, p.y))
        },
    }
}

/// Moves the controlled player entities one tile in the direction of a movement key.
pub struct InputSystem;

impl InputSystem {
    /// Moves every row of every controlled table one step in direction `d` where the step
    /// reaches a walkable tile; returns whether any row moved.
    fn move_table(t: &mut Table, d: Direction, map: &TileMap) -> (r: bool)
        requires
            old(t)@.wf(),
            is_controlled(old(t)@.key),
        ensures
            final(t)@ == moved_table(old(t)@, d, *map),
            r == exists|j: int|
                0 <= j < old(t)@.positions.len() && can_step(
                    #[trigger] old(t)@.positions[j],
                    d,
                    *map,
                ),
    {
        let ghost o = t@;
        let n = t.positions.len();
        let mut any = false;
        let mut j: usize = 0;
        assert(t@.positions =~= o.positions.subrange(0, 0).map_values(
            |p: Position| stepped(p, d, *map),
        ) + o.positions.subrange(0, n as int));
        proof {
            map.lemma_size_bounds();
        }
        while j < n
            invariant
                n == o.positions.len(),
                j <= n,
                map.width() <= usize::MAX,
                map.height() <= usize::MAX,
                t@ == (TableView {
                    positions: o.positions.subrange(0, j as int).map_values(
                        |p: Position| stepped(p, d, *map),
                    ) + o.positions.subrange(j as int, n as int),
                    ..o
                }),
                any == exists|k: int| 0 <= k < j && can_step(#[trigger] o.positions[k], d, *map),
            decreases n - j,
        {
            let p = t.positions[j];
            assert(p == o.positions[j as int]);
            let ghost next = o.positions.subrange(0, j + 1).map_values(
                |p: Position| stepped(p, d, *map),
            ) + o.positions.subrange(j + 1, n as int);
            let ghost any_before = any;
            let ghost cs = can_step(p, d, *map);
            if let Some(q) = destination(p, d) {
                if q != p && map.is_walkable(q.x, q.y) {
                    t.positions[j] = q;
                    any = true;
                }
            }
            proof {
                assert(stepped(p, d, *map) == t@.positions[j as int]);
                assert(t@.positions =~= next);
                assert(any == (any_before || cs));
                if cs {
                    assert(can_step(o.positions[j as int], d, *map));
                }
            }
            j = j + 1;
        }
        assert(t@.positions =~= o.positions.map_values(|p: Position| stepped(p, d, *map)));
        any
    }

    /// Handles one input event. A movement key moves every row of every controllable,
    /// positioned table one tile that way, clamped at zero, where the tile reached is
    /// another tile and a walkable one; the result says whether any row moved. Any
    /// other event changes nothing.
    pub fn run(world: &mut World, event: InputEvent) -> (r: bool)
        requires
            old(world).wf(),
        ensures
            final(world).wf(),
            final(world).next_entity == old(world).next_entity,
            final(world).map == old(world).map,
            final(world).turn_state == old(world).turn_state,
            final(world).tables_view() == input_outcome(
                old(world).tables_view(),
                old(world).map,
                event,
            ),
            r == match event {
                InputEvent::Move(d) => any_step(old(world).tables_view(), d, old(world).map),
                _ => false,
            },
    {
        let d = match event {
            InputEvent::Move(d) => d,
            _ => return false,
        };
        let ghost o = world.tables_view();
        let mut any = false;
        let mut ti: usize = 0;
        while ti < world.tables.len()
            invariant
                world.next_entity == old(world).next_entity,
                world.map == old(world).map,
                world.turn_state == old(world).turn_state,
                o == old(world).tables_view(),
                tables_wf(o, world.next_entity),
                world.tables@.len() == o.len(),
                ti <= o.len(),
                forall|j: int| 0 <= j < ti ==> world.tables_view()[j] == moved_table(o[j], d, world.map),
                forall|j: int| ti <= j < o.len() ==> world.tables_view()[j] == o[j],
                any == exists|i: int, j: int|
                    0 <= i < ti && is_controlled(o[i].key) && 0 <= j < o[i].positions.len()
                        && can_step(#[trigger] o[i].positions[j], d, world.map),
            decreases o.len() - ti,
        {
            let ghost before = world.tables_view();
            assert(before[ti as int] == world.tables@[ti as int]@);
            assert(o[ti as int].wf());
            let k = world.tables[ti].key;
            if k.is_controllable && k.has_position {
                let moved = move_table_at(world, ti, d);
                any = any || moved;
            }
            proof {
                let after = world.tables_view();
                assert(after.len() == world.tables@.len());
                assert forall|j: int| 0 <= j < after.len() && j != ti implies after[j]
                    == before[j] by {}
            }
            ti = ti + 1;
        }
        proof {
            let f = world.tables_view();
            assert(f =~= o.map_values(|t: TableView| moved_table(t, d, world.map)));
            assert forall|i: int| 0 <= i < f.len() implies #[trigger] f[i].wf() by {
                assert(o[i].wf());
            }
            assert forall|i: int, r: int|
                0 <= i < f.len() && 0 <= r < f[i].entities.len() implies f[i].entities[r]
                < world.next_entity by {
                assert(f[i].entities == o[i].entities);
            }
        }
        any
    }
}

/// Moves the rows of table `ti` of the world one step in direction `d`.
fn move_table_at(world: &mut World, ti: usize, d: Direction) -> (r: bool)
    requires
        ti < old(world).tables@.len(),
        old(world).tables@[ti as int]@.wf(),
        is_controlled(old(world).tables@[ti as int]@.key),
    ensures
        final(world).tables_view() == old(world).tables_view().update(
            ti as int,
            moved_table(old(world).tables_view()[ti as int], d, old(world).map),
        ),
        final(world).next_entity == old(world).next_entity,
        final(world).map == old(world).map,
        final(world).turn_state == old(world).turn_state,
        r == exists|j: int|
            0 <= j < old(world).tables_view()[ti as int].positions.len() && can_step(
                #[trigger] old(world).tables_view()[ti as int].positions[j],
                d,
                old(world).map,
            ),
{
    let ghost o = world.tables_view();
    let World { tables, map, .. } = world;
    let r = InputSystem::move_table(&mut tables[ti], d, map);
    assert(world.tables_view() =~= o.update(ti as int, moved_table(o[ti as int], d, world.map)));
    r
}

} // verus!
