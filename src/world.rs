use vstd::prelude::*;

use crate::components::{
    AggressionIntent, ArchetypeId, ArchetypeKey, Damage, Entity, Loot, Position, Strength, HP,
};
use crate::map::TileMap;
use crate::random::{chance, choose_position};
use crate::systems::aggression::{first_controlled, lemma_first_controlled_range};
use crate::systems::aggression::engaged;
use crate::systems::damage::{cleared, damaged, pending_attacks, rolled};
use crate::systems::death::cull;
use crate::systems::enemy_ai::{pathed_table, player_position};
use crate::systems::input::{any_step, input_outcome};
use crate::systems::{
    AggressionSystem, DamageSystem, DeathSystem, EnemyAISystem, InputEvent, InputSystem,
};

verus! {

/// What a table holds, column by column; loot is seen as the entities it contains.
pub struct TableView {
    pub key: ArchetypeKey,
    pub entities: Seq<Entity>,
    pub positions: Seq<Position>,
    pub hitpoints: Seq<HP>,
    pub intents: Seq<Option<AggressionIntent>>,
    pub strengths: Seq<Strength>,
    pub loot: Seq<Seq<Entity>>,
}

/// The length a column has in a table of `n` rows: `n` if the key declares it, else zero.
pub open spec fn column_len(present: bool, n: nat) -> nat {
    if present {
        n
    } else {
        0
    }
}

/// A column after pushing `v`, if the key declares the column.
pub open spec fn push_if<T>(col: Seq<T>, present: bool, v: T) -> Seq<T> {
    if present {
        col.push(v)
    } else {
        col
    }
}

impl TableView {
    /// The number of rows.
    pub open spec fn len(self) -> nat {
        self.entities.len()
    }

    /// Every column declared present by the key has one entry per row; the others are empty.
    pub open spec fn wf(self) -> bool {
        let n = self.entities.len();
        &&& self.intents.len() == n
        &&& self.positions.len() == column_len(self.key.has_position, n)
        &&& self.hitpoints.len() == column_len(self.key.has_hp, n)
        &&& self.strengths.len() == column_len(self.key.has_strength, n)
        &&& self.loot.len() == column_len(self.key.has_loot, n)
    }

    /// A table with no rows.
    pub open spec fn empty(key: ArchetypeKey) -> TableView {
        TableView {
            key,
            entities: Seq::empty(),
            positions: Seq::empty(),
            hitpoints: Seq::empty(),
            intents: Seq::empty(),
            strengths: Seq::empty(),
            loot: Seq::empty(),
        }
    }

    /// The table with row `i` taken out of every column the key declares present.
    pub open spec fn remove_row(self, i: int) -> TableView {
        TableView {
            key: self.key,
            entities: self.entities.remove(i),
            positions: if self.key.has_position {
                self.positions.remove(i)
            } else {
                self.positions
            },
            hitpoints: if self.key.has_hp {
                self.hitpoints.remove(i)
            } else {
                self.hitpoints
            },
            intents: self.intents.remove(i),
            strengths: if self.key.has_strength {
                self.strengths.remove(i)
            } else {
                self.strengths
            },
            loot: if self.key.has_loot {
                self.loot.remove(i)
            } else {
                self.loot
            },
        }
    }
}

/// The row store of one archetype: parallel columns indexed by a shared row index.
#[derive(Debug)]
pub struct Table {
    pub key: ArchetypeKey,
    pub entities: Vec<Entity>,
    pub positions: Vec<Position>,
    pub hitpoints: Vec<HP>,
    pub aggression_intents: Vec<Option<AggressionIntent>>,
    pub strengths: Vec<Strength>,
    pub loot: Vec<Loot>,
}

impl View for Table {
    type V = TableView;

    open spec fn view(&self) -> TableView {
        TableView {
            key: self.key,
            entities: self.entities@,
            positions: self.positions@,
            hitpoints: self.hitpoints@,
            intents: self.aggression_intents@,
            strengths: self.strengths@,
            loot: self.loot@.map_values(|l: Loot| l.0@),
        }
    }
}

impl Table {
    pub fn new(key: ArchetypeKey) -> (r: Table)
        ensures
            r@ == TableView::empty(key),
    {
        let r = Table {
            key,
            entities: Vec::new(),
            positions: Vec::new(),
            hitpoints: Vec::new(),
            aggression_intents: Vec::new(),
            strengths: Vec::new(),
            loot: Vec::new(),
        };
        assert(r@.loot =~= Seq::empty());
        r
    }

    pub fn len(&self) -> (r: usize)
        ensures
            r == self@.len(),
    {
        self.entities.len()
    }

    /// Appends one aligned row: each value is given exactly when the key declares its column.
    pub fn push_row(
        &mut self,
        entity: Entity,
        position: Option<Position>,
        hp: Option<HP>,
        strength: Option<Strength>,
        loot: Option<Loot>,
    )
        requires
            old(self)@.wf(),
            position.is_some() == old(self).key.has_position,
            hp.is_some() == old(self).key.has_hp,
            strength.is_some() == old(self).key.has_strength,
            loot.is_some() == old(self).key.has_loot,
        ensures
            final(self)@.wf(),
            final(self)@ == (TableView {
                key: old(self)@.key,
                entities: old(self)@.entities.push(entity),
                positions: push_if(old(self)@.positions, position.is_some(), position.unwrap()),
                hitpoints: push_if(old(self)@.hitpoints, hp.is_some(), hp.unwrap()),
                intents: old(self)@.intents.push(None),
                strengths: push_if(old(self)@.strengths, strength.is_some(), strength.unwrap()),
                loot: push_if(old(self)@.loot, loot.is_some(), loot.unwrap().0@),
            }),
    {
        self.entities.push(entity);
        self.aggression_intents.push(None);
        if let Some(p) = position {
            self.positions.push(p);
        }
        if let Some(h) = hp {
            self.hitpoints.push(h);
        }
        if let Some(s) = strength {
            self.strengths.push(s);
        }
        if let Some(l) = loot {
            let ghost before = self.loot@;
            let ghost lv = l.0@;
            self.loot.push(l);
            assert(self.loot@.map_values(|l: Loot| l.0@) =~= before.map_values(|l: Loot| l.0@).push(
                lv,
            ));
        }
    }

    /// Removes row `index` from every column the key declares present; later rows move down by one.
    pub fn remove_row(&mut self, index: usize)
        requires
            old(self)@.wf(),
            index < old(self)@.len(),
        ensures
            final(self)@.wf(),
            final(self)@ == old(self)@.remove_row(index as int),
    {
        self.entities.remove(index);
        self.aggression_intents.remove(index);
        if self.key.has_position {
            self.positions.remove(index);
        }
        if self.key.has_hp {
            self.hitpoints.remove(index);
        }
        if self.key.has_strength {
            self.strengths.remove(index);
        }
        if self.key.has_loot {
            let ghost before = self.loot@;
            self.loot.remove(index);
            assert(self.loot@.map_values(|l: Loot| l.0@) =~= before.map_values(
                |l: Loot| l.0@,
            ).remove(index as int));
        }
    }
}

/// Whose turn it is.
#[derive(PartialEq, Eq, Structural, Clone, Copy, Debug)]
pub enum TurnState {
    Player,
    Enemy,
}

/// Why an entity could not be spawned.
#[derive(PartialEq, Eq, Structural, Clone, Copy, Debug)]
pub enum SpawnFailure {
    /// The archetype has no template of default values.
    MissingTemplate,
    /// The archetype needs a position and no tile of the map is walkable.
    NoWalkableTile,
}

/// The map, one table per archetype key in use, and the counter of entity ids.
#[derive(Debug)]
pub struct World {
    /// The id the next spawned entity gets; it only grows.
    pub next_entity: Entity,
    pub map: TileMap,
    pub tables: Vec<Table>,
    pub turn_state: TurnState,
}

/// A table's row after a spawn of archetype `a` with id `id`.
pub open spec fn spawned_row(
    before: TableView,
    after: TableView,
    a: ArchetypeId,
    id: Entity,
    map: TileMap,
) -> bool {
    let k = before.key;
    &&& after.key == k
    &&& after.entities == before.entities.push(id)
    &&& after.intents == before.intents.push(None)
    &&& after.hitpoints == push_if(before.hitpoints, k.has_hp, HP(a.hp_spec().unwrap()))
    &&& after.strengths == push_if(
        before.strengths,
        k.has_strength,
        Strength(a.strength_spec().unwrap()),
    )
    &&& after.loot == push_if(before.loot, k.has_loot, a.loot_spec().unwrap())
    &&& if k.has_position {
        &&& after.positions.len() == before.positions.len() + 1
        &&& after.positions.drop_last() == before.positions
        &&& map.walkable(after.positions.last().x as int, after.positions.last().y as int)
    } else {
        after.positions == before.positions
    }
}

/// The tables after a spawn of archetype `a` with id `id`: the row is appended to the
/// table of the archetype's key, which is created at the end if it did not exist, and
/// no other table changes.
pub open spec fn spawned_into(
    before: Seq<TableView>,
    after: Seq<TableView>,
    a: ArchetypeId,
    id: Entity,
    map: TileMap,
) -> bool {
    let k = a.key_spec();
    exists|i: int|
        #![trigger after[i]]
        0 <= i < after.len() && {
            &&& forall|j: int| 0 <= j < before.len() && j != i ==> after[j] == before[j]
            &&& if i < before.len() {
                &&& after.len() == before.len()
                &&& before[i].key == k
                &&& spawned_row(before[i], after[i], a, id, map)
            } else {
                &&& i == before.len()
                &&& after.len() == before.len() + 1
                &&& forall|j: int| 0 <= j < before.len() ==> before[j].key != k
                &&& spawned_row(TableView::empty(k), after[i], a, id, map)
            }
        }
}

impl World {
    /// The tables, seen column by column.
    pub open spec fn tables_view(&self) -> Seq<TableView> {
        self.tables@.map_values(|t: Table| t@)
    }

    /// Every table is well formed, no two tables share a key, and every entity id
    /// stored is below the counter.
    pub open spec fn wf(&self) -> bool {
        tables_wf(self.tables_view(), self.next_entity)
    }

    pub fn new(map: TileMap) -> (r: Self)
        ensures
            r.wf(),
            r.next_entity == 0,
            r.map == map,
            r.tables@.len() == 0,
    {
        let turn_state = if chance(1, 2) {
            TurnState::Enemy
        } else {
            TurnState::Player
        };
        World { next_entity: 0, map, tables: Vec::new(), turn_state }
    }

    fn get_next_entity(&mut self) -> (r: Entity)
        requires
            old(self).next_entity < usize::MAX,
        ensures
            r == old(self).next_entity,
            final(self).next_entity == old(self).next_entity + 1,
            final(self).map == old(self).map,
            final(self).tables == old(self).tables,
            final(self).turn_state == old(self).turn_state,
    {
        self.next_entity = self.next_entity + 1;
        self.next_entity - 1
    }

    /// The index of the table with key `key`, which is created empty at the end if absent.
    pub fn ensure_table(&mut self, key: ArchetypeKey) -> (r: usize)
        requires
            old(self).wf(),
        ensures
            final(self).wf(),
            final(self).next_entity == old(self).next_entity,
            final(self).map == old(self).map,
            final(self).turn_state == old(self).turn_state,
            r < final(self).tables@.len(),
            final(self).tables_view()[r as int].key == key,
            r < old(self).tables@.len() ==> final(self).tables_view() == old(self).tables_view(),
            r >= old(self).tables@.len() ==> {
                &&& r == old(self).tables@.len()
                &&& final(self).tables_view() == old(self).tables_view().push(
                    TableView::empty(key),
                )
                &&& forall|j: int|
                    0 <= j < old(self).tables@.len() ==> old(self).tables_view()[j].key != key
            },
    {
        let mut i: usize = 0;
        while i < self.tables.len()
            invariant
                i <= self.tables@.len(),
                *self == *old(self),
                old(self).wf(),
                forall|j: int| 0 <= j < i ==> self.tables_view()[j].key != key,
            decreases self.tables@.len() - i,
        {
            if self.tables[i].key == key {
                return i;
            }
            i = i + 1;
        }
        let ghost before = self.tables_view();
        self.tables.push(Table::new(key));
        assert(self.tables_view() =~= before.push(TableView::empty(key)));
        i
    }

    /// Creates an entity of archetype `archetype_id` and appends its row to the table of
    /// the archetype's key. A positioned archetype is placed on a walkable tile drawn at
    /// random. The new entity gets the counter's value as its id.
    pub fn spawn_from_archetype(&mut self, archetype_id: ArchetypeId) -> (r: Result<
        Entity,
        SpawnFailure,
    >)
        requires
            old(self).wf(),
            old(self).next_entity < usize::MAX,
        ensures
            final(self).wf(),
            final(self).map == old(self).map,
            final(self).turn_state == old(self).turn_state,
            r.is_err() <==> (archetype_id.key_spec().has_position
                && !old(self).map.has_walkable_tile()),
            match r {
                Ok(id) => {
                    &&& id == old(self).next_entity
                    &&& final(self).next_entity == old(self).next_entity + 1
                    &&& forall|i: int, row: int|
                        0 <= i < old(self).tables_view().len() && 0 <= row < old(
                            self,
                        ).tables_view()[i].entities.len() ==> old(self).tables_view()[i].entities[row]
                            < id
                    &&& spawned_into(
                        old(self).tables_view(),
                        final(self).tables_view(),
                        archetype_id,
                        id,
                        old(self).map,
                    )
                },
                Err(e) => {
                    &&& e == SpawnFailure::NoWalkableTile
                    &&& final(self).next_entity == old(self).next_entity
                    &&& final(self).tables_view() == old(self).tables_view()
                },
            },
    {
        let template = match archetype_id.template() {
            Some(t) => t,
            None => return Err(SpawnFailure::MissingTemplate),
        };
        let key = archetype_id.key();
        let position = if key.has_position {
            let options = self.map.walkable_positions();
            match choose_position(&options) {
                Some(p) => {
                    proof {
                        let k = choose|k: int| 0 <= k < options@.len() && options@[k] == p;
                        assert(self.map.walkable(options@[k].x as int, options@[k].y as int));
                    }
                    Some(p)
                },
                None => {
                    assert(!self.map.has_walkable_tile()) by {
                        if self.map.has_walkable_tile() {
                            let (x, y) = choose|x: int, y: int| self.map.walkable(x, y);
                            assert(options@.contains(Position { x: x as usize, y: y as usize }));
                        }
                    }
                    return Err(SpawnFailure::NoWalkableTile);
                },
            }
        } else {
            None
        };
        let hp = if key.has_hp {
            template.default_hp
        } else {
            None
        };
        let strength = if key.has_strength {
            template.default_strength
        } else {
            None
        };
        let loot = if key.has_loot {
            template.default_loot
        } else {
            None
        };
        let ghost before = self.tables_view();
        let id = self.get_next_entity();
        let i = self.ensure_table(key);
        let ghost mid = self.tables_view();
        self.tables[i].push_row(id, position, hp, strength, loot);
        proof {
            let after = self.tables_view();
            assert(after =~= mid.update(i as int, after[i as int]));
            if position.is_none() {
                assert(!self.map.has_walkable_tile() ==> !key.has_position);
            }
            assert forall|a: int, b: int|
                0 <= a < after.len() && 0 <= b < after.len() && a != b implies after[a].key
                != after[b].key by {
                assert(mid[a].key == after[a].key);
                assert(mid[b].key == after[b].key);
            }
            assert forall|a: int, row: int|
                0 <= a < after.len() && 0 <= row < after[a].entities.len() implies
                after[a].entities[row] < self.next_entity by {
                if a != i {
                    assert(after[a] == mid[a]);
                } else if row < mid[a].entities.len() {
                    assert(after[a].entities[row] == mid[a].entities[row]);
                }
            }
            let old_row = if (i as int) < before.len() {
                before[i as int]
            } else {
                TableView::empty(key)
            };
            assert(mid[i as int] == old_row);
            if key.has_position {
                assert(after[i as int].positions.drop_last() =~= old_row.positions);
            }
            assert(spawned_row(old_row, after[i as int], archetype_id, id, self.map));
            assert(spawned_into(before, after, archetype_id, id, self.map)) by {
                assert(after[i as int] == after[i as int]);
            }
        }
        Ok(id)
    }
}

impl World {
    /// Spawns the player.
    pub fn spawn_player(&mut self) -> (r: Entity)
        requires
            old(self).wf(),
            old(self).next_entity < usize::MAX,
            old(self).map.has_walkable_tile(),
        ensures
            final(self).wf(),
            final(self).map == old(self).map,
            final(self).turn_state == old(self).turn_state,
            r == old(self).next_entity,
            final(self).next_entity == old(self).next_entity + 1,
            spawned_into(
                old(self).tables_view(),
                final(self).tables_view(),
                ArchetypeId::Player,
                r,
                old(self).map,
            ),
    {
        match self.spawn_from_archetype(ArchetypeId::Player) {
            Ok(id) => id,
            Err(_) => {
                // The map has a walkable tile, so the spawn cannot fail.
                proof {
                    assert(false);
                }
                0
            },
        }
    }

    /// Spawns one hostile enemy.
    pub fn spawn_enemy(&mut self) -> (r: Entity)
        requires
            old(self).wf(),
            old(self).next_entity < usize::MAX,
            old(self).map.has_walkable_tile(),
        ensures
            final(self).wf(),
            final(self).map == old(self).map,
            final(self).turn_state == old(self).turn_state,
            r == old(self).next_entity,
            final(self).next_entity == old(self).next_entity + 1,
            spawned_into(
                old(self).tables_view(),
                final(self).tables_view(),
                ArchetypeId::Enemy,
                r,
                old(self).map,
            ),
    {
        match self.spawn_from_archetype(ArchetypeId::Enemy) {
            Ok(id) => id,
            Err(_) => {
                // The map has a walkable tile, so the spawn cannot fail.
                proof {
                    assert(false);
                }
                0
            },
        }
    }

    /// Spawns one player and one enemy.
    pub fn initialize(&mut self)
        requires
            old(self).wf(),
            old(self).next_entity < usize::MAX - 1,
            old(self).map.has_walkable_tile(),
        ensures
            final(self).wf(),
            final(self).map == old(self).map,
            final(self).next_entity == old(self).next_entity + 2,
            exists|mid: Seq<TableView>|
                spawned_into(
                    old(self).tables_view(),
                    mid,
                    ArchetypeId::Player,
                    old(self).next_entity,
                    old(self).map,
                ) && spawned_into(
                    mid,
                    final(self).tables_view(),
                    ArchetypeId::Enemy,
                    (old(self).next_entity + 1) as usize,
                    old(self).map,
                ),
    {
        self.spawn_player();
        let ghost mid = self.tables_view();
        self.spawn_enemy();
    }

    /// Runs one tick: input, aggression, damage, death, then the enemies' pathfinding, in
    /// that order. Returns whether the input moved the player. Every table stays well formed,
    /// keeps its key, and no entity id is handed out.
    pub fn update(&mut self, event: InputEvent) -> (r: bool)
        requires
            old(self).wf(),
        ensures
            final(self).wf(),
            final(self).map == old(self).map,
            final(self).next_entity == old(self).next_entity,
            same_keys(old(self).tables_view(), final(self).tables_view()),
            ticked(old(self).tables_view(), final(self).tables_view(), old(self).map, event, r),
    {
        let ghost s0 = self.tables_view();
        let moved = InputSystem::run(self, event);
        let ghost s1 = self.tables_view();
        assert(same_keys(s0, s1));
        AggressionSystem::run(self);
        let ghost s2 = self.tables_view();
        assert(same_keys(s1, s2)) by {
            let pi = first_controlled(s1, 0);
            lemma_first_controlled_range(s1, 0);
            if 0 <= pi && s1[pi].entities.len() > 0 {
                assert(s2.len() == s1.len());
            }
        }
        DamageSystem::run(self);
        let ghost s3 = self.tables_view();
        let ghost hits = choose|hits: Seq<(Entity, Damage)>|
            rolled(hits, pending_attacks(s2)) && s3 == s2.map_values(
                |t: TableView| damaged(cleared(t), hits),
            );
        assert(same_keys(s2, s3)) by {
            assert(s3.len() == s2.len());
        }
        DeathSystem::run(self);
        let ghost s4 = self.tables_view();
        assert(same_keys(s3, s4));
        EnemyAISystem::run(self);
        let ghost s5 = self.tables_view();
        assert(same_keys(s4, s5)) by {
            assert forall|i: int| 0 <= i < s4.len() implies #[trigger] s4[i].key == s5[i].key by {
                assert(pathed_table(s4[i], s5[i], self.map, player_position(s4)));
            }
        }
        assert(s4 == s3.map_values(|t: TableView| cull(t)));
        assert(tick_rest(s2, hits, s5, self.map));
        moved
    }
}

/// The end of a tick from the tables `s2` left by the aggression pass: the hits land and
/// consume the intents, the dead are removed, then each hostile steps toward the player.
pub open spec fn tick_rest(
    s2: Seq<TableView>,
    hits: Seq<(Entity, Damage)>,
    after: Seq<TableView>,
    map: TileMap,
) -> bool {
    let s4 = s2.map_values(|t: TableView| damaged(cleared(t), hits)).map_values(
        |t: TableView| cull(t),
    );
    &&& after.len() == s4.len()
    &&& forall|i: int|
        0 <= i < s4.len() ==> pathed_table(s4[i], #[trigger] after[i], map, player_position(s4))
}

/// One tick from `before` to `after` on `map` with input `event`, returning `r`: the input
/// is applied, then the aggression pass, then damage with some rolled hits, one per
/// pending attack, then the death pass, then the hostiles' step toward the player.
pub open spec fn ticked(
    before: Seq<TableView>,
    after: Seq<TableView>,
    map: TileMap,
    event: InputEvent,
    r: bool,
) -> bool {
    let s2 = engaged(input_outcome(before, map, event), false);
    &&& r == match event {
        InputEvent::Move(d) => any_step(before, d, map),
        _ => false,
    }
    &&& exists|hits: Seq<(Entity, Damage)>|
        rolled(hits, pending_attacks(s2)) && #[trigger] tick_rest(s2, hits, after, map)
}

/// Two lists of tables with the same keys, in the same order.
pub open spec fn same_keys(a: Seq<TableView>, b: Seq<TableView>) -> bool {
    &&& a.len() == b.len()
    &&& forall|i: int| 0 <= i < a.len() ==> #[trigger] a[i].key == b[i].key
}

/// An id that is stored in a well-formed world is below its counter, so the next spawn,
/// which hands out the counter, never reuses it, even after the entity was removed.
pub proof fn lemma_ids_never_reused(w: World, i: int, row: int, next: Entity)
    requires
        w.wf(),
        0 <= i < w.tables_view().len(),
        0 <= row < w.tables_view()[i].entities.len(),
        next >= w.next_entity,
    ensures
        w.tables_view()[i].entities[row] != next,
{
}

/// Every table is well formed, no two share a key, and each stored id is below `next`.
pub open spec fn tables_wf(ts: Seq<TableView>, next: Entity) -> bool {
    &&& forall|i: int| 0 <= i < ts.len() ==> #[trigger] ts[i].wf()
    &&& forall|i: int, j: int|
        0 <= i < ts.len() && 0 <= j < ts.len() && i != j ==> ts[i].key != ts[j].key
    &&& forall|i: int, r: int|
        0 <= i < ts.len() && 0 <= r < ts[i].entities.len() ==> ts[i].entities[r] < next
    &&& ids_unique(ts)
}

/// No entity id is stored in two rows, of one table or of two.
pub open spec fn ids_unique(ts: Seq<TableView>) -> bool {
    forall|i: int, r: int, j: int, q: int|
        0 <= i < ts.len() && 0 <= r < ts[i].entities.len() && 0 <= j < ts.len() && 0 <= q
            < ts[j].entities.len() && (i != j || r != q) ==> #[trigger] ts[i].entities[r]
            != #[trigger] ts[j].entities[q]
}

/// Tables that hold the same entity ids as unique ones hold unique ids too.
pub proof fn lemma_ids_unique_same_entities(o: Seq<TableView>, f: Seq<TableView>)
    requires
        ids_unique(o),
        f.len() == o.len(),
        forall|i: int| 0 <= i < o.len() ==> #[trigger] f[i].entities == o[i].entities,
    ensures
        ids_unique(f),
{
    assert forall|i: int, r: int, j: int, q: int|
        0 <= i < f.len() && 0 <= r < f[i].entities.len() && 0 <= j < f.len() && 0 <= q
            < f[j].entities.len() && (i != j || r != q) implies #[trigger] f[i].entities[r]
        != #[trigger] f[j].entities[q] by {
        assert(f[i].entities == o[i].entities);
        assert(f[j].entities == o[j].entities);
    }
}

} // verus!
