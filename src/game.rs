use vstd::prelude::*;

use crate::components::{ArchetypeId, Position};
use crate::dungeon::BSPNode;
use crate::map::TileMap;
use crate::systems::InputEvent;
use crate::world::{spawned_into, ticked, SpawnFailure, TableView, World};

verus! {

/// A running game: a dungeon with the player and one enemy in it.
pub struct Game {
    world: World,
}

/// A world just started on `map`: ids 0 and 1 handed out, to the player and then to one
/// enemy, each spawned into tables that held nothing before.
pub open spec fn fresh_world(w: World, map: TileMap) -> bool {
    &&& w.wf()
    &&& w.map == map
    &&& w.next_entity == 2
    &&& exists|mid: Seq<TableView>|
        spawned_into(Seq::empty(), mid, ArchetypeId::Player, 0, map) && #[trigger] spawned_into(
            mid,
            w.tables_view(),
            ArchetypeId::Enemy,
            1,
            map,
        )
}

impl Game {
    /// The game's world.
    pub closed spec fn world_view(&self) -> World {
        self.world
    }

    /// The game's world is well formed.
    pub open spec fn wf(&self) -> bool {
        self.world_view().wf()
    }

    /// Starts a game on `map`: spawns the player and then one enemy on walkable tiles.
    /// Fails exactly when no tile of the map is walkable.
    pub fn from_map(map: TileMap) -> (r: Result<Self, SpawnFailure>)
        ensures
            r.is_err() <==> !map.has_walkable_tile(),
            r.is_err() ==> r == Err::<Self, SpawnFailure>(SpawnFailure::NoWalkableTile),
            r.is_ok() ==> fresh_world(r.unwrap().world_view(), map),
    {
        let mut world = World::new(map);
        let open = world.map.walkable_positions();
        if open.len() == 0 {
            assert(!world.map.has_walkable_tile()) by {
                if world.map.has_walkable_tile() {
                    let (x, y) = choose|x: int, y: int| world.map.walkable(x, y);
                    assert(open@.contains(Position { x: x as usize, y: y as usize }));
                }
            }
            return Err(SpawnFailure::NoWalkableTile);
        }
        assert(world.map.walkable(open@[0].x as int, open@[0].y as int));
        assert(world.tables_view() =~= Seq::empty());
        world.initialize();
        Ok(Game { world })
    }

    /// Generates a `width` by `height` dungeon, partitioned `depth` levels deep, and
    /// starts a game on it. Fails when the dungeon has no walkable tile.
    pub fn new(width: usize, height: usize, depth: isize) -> (r: Result<Self, SpawnFailure>)
        requires
            width * height <= usize::MAX,
        ensures
            r.is_ok() ==> fresh_world(r.unwrap().world_view(), r.unwrap().world_view().map),
            r.is_ok() ==> r.unwrap().world_view().map.width() == width,
            r.is_err() ==> r == Err::<Self, SpawnFailure>(SpawnFailure::NoWalkableTile),
    {
        let mut map = TileMap::new(width, height);
        BSPNode::create_dungeon(&mut map, depth);
        Self::from_map(map)
    }

    /// The world, for drawing.
    pub fn world(&self) -> (r: &World)
        ensures
            *r == self.world_view(),
    {
        &self.world
    }

    /// Runs one tick of the world with the input event of this tick; returns whether the
    /// player moved.
    pub fn update(&mut self, event: InputEvent) -> (r: bool)
        requires
            old(self).wf(),
        ensures
            final(self).wf(),
            final(self).world_view().map == old(self).world_view().map,
            final(self).world_view().next_entity == old(self).world_view().next_entity,
            ticked(
                old(self).world_view().tables_view(),
                final(self).world_view().tables_view(),
                old(self).world_view().map,
                event,
                r,
            ),
    {
        self.world.update(event)
    }
}

} // verus!
