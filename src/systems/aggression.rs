use vstd::prelude::*;

use crate::components::{AggressionIntent, ArchetypeKey, Entity, Position};
use crate::world::{tables_wf, Table, TableView, World};

use super::input::is_controlled;

verus! {

/// The index of the first controlled table at or after `i`, or -1 if there is none.
pub open spec fn first_controlled(ts: Seq<TableView>, i: int) -> int
    decreases ts.len() - i,
{
    if i < 0 || i >= ts.len() {
        -1
    } else if is_controlled(ts[i].key) {
        i
    } else {
        first_controlled(ts, i + 1)
    }
}

pub(crate) proof fn lemma_first_controlled_range(ts: Seq<TableView>, i: int)
    requires
        0 <= i,
    ensures
        first_controlled(ts, i) == -1 || (i <= first_controlled(ts, i) < ts.len()),
    decreases ts.len() - i,
{
    if i < ts.len() && !is_controlled(ts[i].key) {
        lemma_first_controlled_range(ts, i + 1);
    }
}

/// Whether the rows of a table engage a player on their tile; with `combat_only`, only
/// tables that also have hit points and strength do.
pub open spec fn is_attacker_table(k: ArchetypeKey, combat_only: bool) -> bool {
    k.is_hostile && k.has_position && (!combat_only || (k.has_hp && k.has_strength))
}

/// A table after its attacking rows standing on `pos` take `target` as their intent.
pub open spec fn marked(t: TableView, pos: Position, target: Entity, combat_only: bool) -> TableView {
    if is_attacker_table(t.key, combat_only) {
        TableView {
            intents: Seq::new(
                t.intents.len(),
                |j: int|
                    if t.positions[j] == pos {
                        Some(AggressionIntent(target))
                    } else {
                        t.intents[j]
                    },
            ),
            ..t
        }
    } else {
        t
    }
}

/// The last of rows `0..n` of `t` that attacks a player standing on `pos`.
pub open spec fn table_last_attacker(t: TableView, pos: Position, combat_only: bool, n: int) -> Option<
    Entity,
>
    decreases n,
{
    if n <= 0 || !is_attacker_table(t.key, combat_only) {
        None
    } else if t.positions[n - 1] == pos {
        Some(t.entities[n - 1])
    } else {
        table_last_attacker(t, pos, combat_only, n - 1)
    }
}

/// The last row, table after table, that attacks a player standing on `pos`.
pub open spec fn last_attacker(ts: Seq<TableView>, pos: Position, combat_only: bool) -> Option<
    Entity,
>
    decreases ts.len(),
{
    if ts.len() == 0 {
        None
    } else {
        let t = ts.last();
        let l = table_last_attacker(t, pos, combat_only, t.entities.len() as int);
        if l.is_some() {
            l
        } else {
            last_attacker(ts.drop_last(), pos, combat_only)
        }
    }
}

/// The tables after the aggression pass. The player is the first row of the first
/// controlled table; without one nothing changes. Every attacking row on the player's
/// tile intends to attack the player, and the player intends to attack the last of them.
pub open spec fn engaged(ts: Seq<TableView>, combat_only: bool) -> Seq<TableView> {
    let pi = first_controlled(ts, 0);
    if pi < 0 || ts[pi].entities.len() == 0 {
        ts
    } else {
        let pos = ts[pi].positions[0];
        let pid = ts[pi].entities[0];
        let m = ts.map_values(|t: TableView| marked(t, pos, pid, combat_only));
        match last_attacker(ts, pos, combat_only) {
            Some(a) => m.update(
                pi,
                TableView { intents: m[pi].intents.update(0, Some(AggressionIntent(a))), ..m[pi] },
            ),
            None => m,
        }
    }
}

/// Marks hostile entities that share the player's tile, and the player, as engaged.
pub struct AggressionSystem;

impl AggressionSystem {
    /// Sets the intent of every row of `t` standing on `pos` to attack `target`, and
    /// records the last such row in `last`.
    fn mark_table(
        t: &mut Table,
        pos: Position,
        target: Entity,
        combat_only: bool,
        last: &mut Option<Entity>,
    )
        requires
            old(t)@.wf(),
            is_attacker_table(old(t)@.key, combat_only),
        ensures
            final(t)@ == marked(old(t)@, pos, target, combat_only),
            *final(last) == (match table_last_attacker(
                old(t)@,
                pos,
                combat_only,
                old(t)@.entities.len() as int,
            ) {
                Some(a) => Some(a),
                None => *old(last),
            }),
    {
        let ghost o = t@;
        let ghost l0 = *last;
        let n = t.len();
        let mut j: usize = 0;
        assert(t@.intents =~= Seq::new(
            0,
            |k: int|
                if o.positions[k] == pos {
                    Some(AggressionIntent(target))
                } else {
                    o.intents[k]
                },
        ) + o.intents.subrange(0, n as int));
        while j < n
            invariant
                o.wf(),
                is_attacker_table(o.key, combat_only),
                n == o.entities.len(),
                j <= n,
                t@ == (TableView {
                    intents: Seq::new(
                        j as nat,
                        |k: int|
                            if o.positions[k] == pos {
                                Some(AggressionIntent(target))
                            } else {
                                o.intents[k]
                            },
                    ) + o.intents.subrange(j as int, n as int),
                    ..o
                }),
                *last == (match table_last_attacker(o, pos, combat_only, j as int) {
                    Some(a) => Some(a),
                    None => l0,
                }),
            decreases n - j,
        {
            if t.positions[j] == pos {
                t.aggression_intents[j] = Some(AggressionIntent(target));
                *last = Some(t.entities[j]);
            }
            j = j + 1;
            assert(t@.intents =~= Seq::new(
                j as nat,
                |k: int|
                    if o.positions[k] == pos {
                        Some(AggressionIntent(target))
                    } else {
                        o.intents[k]
                    },
            ) + o.intents.subrange(j as int, n as int));
        }
        assert(t@.intents =~= marked(o, pos, target, combat_only).intents);
    }

    fn engage(world: &mut World, combat_only: bool)
        requires
            old(world).wf(),
        ensures
            final(world).wf(),
            final(world).next_entity == old(world).next_entity,
            final(world).map == old(world).map,
            final(world).turn_state == old(world).turn_state,
            final(world).tables_view() == engaged(old(world).tables_view(), combat_only),
    {
        let ghost o = world.tables_view();
        let mut pi: usize = 0;
        while pi < world.tables.len() && !(world.tables[pi].key.is_controllable
            && world.tables[pi].key.has_position)
            invariant
                o == world.tables_view(),
                pi <= o.len(),
                first_controlled(o, pi as int) == first_controlled(o, 0),
            decreases o.len() - pi,
        {
            assert(o[pi as int] == world.tables@[pi as int]@);
            pi = pi + 1;
        }
        if pi == world.tables.len() {
            return ;
        }
        assert(o[pi as int] == world.tables@[pi as int]@);
        assert(first_controlled(o, 0) == pi);
        if world.tables[pi].len() == 0 {
            return ;
        }
        assert(o[pi as int].wf());
        let pos = world.tables[pi].positions[0];
        let pid = world.tables[pi].entities[0];
        let mut last: Option<Entity> = None;
        let mut ti: usize = 0;
        while ti < world.tables.len()
            invariant
                world.next_entity == old(world).next_entity,
                world.map == old(world).map,
                world.turn_state == old(world).turn_state,
                o == old(world).tables_view(),
                tables_wf(o, world.next_entity),
                world.tables@.len() == o.len(),
                ti <= o.len(),
                forall|j: int|
                    0 <= j < ti ==> world.tables_view()[j] == marked(o[j], pos, pid, combat_only),
                forall|j: int| ti <= j < o.len() ==> world.tables_view()[j] == o[j],
                last == last_attacker(o.take(ti as int), pos, combat_only),
            decreases o.len() - ti,
        {
            let ghost before = world.tables_view();
            assert(before[ti as int] == world.tables@[ti as int]@);
            assert(o[ti as int].wf());
            assert(o.take(ti + 1).drop_last() =~= o.take(ti as int));
            assert(o.take(ti + 1).last() == o[ti as int]);
            let k = world.tables[ti].key;
            if k.is_hostile && k.has_position && (!combat_only || (k.has_hp && k.has_strength)) {
                mark_table_at(world, ti, pos, pid, combat_only, &mut last);
            } else {
                assert(table_last_attacker(o[ti as int], pos, combat_only, o[ti as int].entities.len() as int).is_none());
            }
            proof {
                let after = world.tables_view();
                assert(after.len() == world.tables@.len());
                assert forall|j: int| 0 <= j < after.len() && j != ti implies after[j]
                    == before[j] by {}
            }
            ti = ti + 1;
        }
        assert(o.take(o.len() as int) =~= o);
        let ghost m = world.tables_view();
        assert(m =~= o.map_values(|t: TableView| marked(t, pos, pid, combat_only)));
        if let Some(a) = last {
            assert(m[pi as int].wf()) by {
                assert(o[pi as int].wf());
            }
            set_first_intent_at(world, pi, a);
        }
        proof {
            let f = world.tables_view();
            assert(f =~= engaged(o, combat_only));
            assert forall|i: int| 0 <= i < f.len() implies #[trigger] f[i].wf() by {
                assert(o[i].wf());
            }
            assert forall|i: int, r: int|
                0 <= i < f.len() && 0 <= r < f[i].entities.len() implies f[i].entities[r]
                < world.next_entity by {
                assert(f[i].entities == o[i].entities);
            }
        }
    }

    /// Finds the player (the first row of the first controllable, positioned table; if
    /// there is none, nothing changes). Every row of a hostile, positioned table that
    /// stands on the player's tile then intends to attack the player, and the player
    /// intends to attack the last such row, table after table.
    pub fn run(world: &mut World)
        requires
            old(world).wf(),
        ensures
            final(world).wf(),
            final(world).next_entity == old(world).next_entity,
            final(world).map == old(world).map,
            final(world).turn_state == old(world).turn_state,
            final(world).tables_view() == engaged(old(world).tables_view(), false),
    {
        Self::engage(world, false)
    }

    /// As `run`, where only hostile tables that also have hit points and strength engage.
    pub fn run2(world: &mut World)
        requires
            old(world).wf(),
        ensures
            final(world).wf(),
            final(world).next_entity == old(world).next_entity,
            final(world).map == old(world).map,
            final(world).turn_state == old(world).turn_state,
            final(world).tables_view() == engaged(old(world).tables_view(), true),
    {
        Self::engage(world, true)
    }
}

/// Marks the attacking rows of table `ti` of the world.
fn mark_table_at(
    world: &mut World,
    ti: usize,
    pos: Position,
    target: Entity,
    combat_only: bool,
    last: &mut Option<Entity>,
)
    requires
        ti < old(world).tables@.len(),
        old(world).tables@[ti as int]@.wf(),
        is_attacker_table(old(world).tables@[ti as int]@.key, combat_only),
    ensures
        final(world).tables_view() == old(world).tables_view().update(
            ti as int,
            marked(old(world).tables_view()[ti as int], pos, target, combat_only),
        ),
        final(world).next_entity == old(world).next_entity,
        final(world).map == old(world).map,
        final(world).turn_state == old(world).turn_state,
        *final(last) == (match table_last_attacker(
            old(world).tables_view()[ti as int],
            pos,
            combat_only,
            old(world).tables_view()[ti as int].entities.len() as int,
        ) {
            Some(a) => Some(a),
            None => *old(last),
        }),
{
    let ghost o = world.tables_view();
    AggressionSystem::mark_table(&mut world.tables[ti], pos, target, combat_only, last);
    assert(world.tables_view() =~= o.update(
        ti as int,
        marked(o[ti as int], pos, target, combat_only),
    ));
}

/// Sets the intent of the first row of table `ti` of the world to attack `target`.
fn set_first_intent_at(world: &mut World, ti: usize, target: Entity)
    requires
        ti < old(world).tables@.len(),
        old(world).tables@[ti as int]@.wf(),
        old(world).tables@[ti as int]@.entities.len() > 0,
    ensures
        final(world).tables_view() == old(world).tables_view().update(
            ti as int,
            TableView {
                intents: old(world).tables_view()[ti as int].intents.update(
                    0,
                    Some(AggressionIntent(target)),
                ),
                ..old(world).tables_view()[ti as int]
            },
        ),
        final(world).next_entity == old(world).next_entity,
        final(world).map == old(world).map,
        final(world).turn_state == old(world).turn_state,
{
    let ghost o = world.tables_view();
    world.tables[ti].aggression_intents[0] = Some(AggressionIntent(target));
    assert(world.tables_view() =~= o.update(
        ti as int,
        TableView {
            intents: o[ti as int].intents.update(0, Some(AggressionIntent(target))),
            ..o[ti as int]
        },
    ));
}

} // verus!
