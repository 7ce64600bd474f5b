use vstd::prelude::*;

use crate::components::{Damage, Entity, Strength, HP};
use crate::random::{chance, random_below};
use crate::world::{tables_wf, Table, TableView, World};

verus! {

/// The damage of one attack: zero on a miss or without strength, else the roll plus one.
pub open spec fn damage_value(strength: usize, miss: bool, roll: usize) -> int {
    if miss || strength == 0 {
        0
    } else {
        roll + 1
    }
}

/// A roll that does not miss deals between one and the strength; with strength one an
/// attack deals zero or one.
pub proof fn lemma_damage_range(strength: usize, miss: bool, roll: usize)
    requires
        strength == 0 || roll < strength,
    ensures
        !miss && strength >= 1 ==> 1 <= damage_value(strength, miss, roll) <= strength,
        strength == 1 ==> damage_value(strength, miss, roll) == 0 || damage_value(
            strength,
            miss,
            roll,
        ) == 1,
{
}

/// The attacks pending in rows `0..n` of `t`: the target and the attacker's strength of
/// each row that holds an intent, in row order.
pub open spec fn table_attacks(t: TableView, n: int) -> Seq<(Entity, usize)>
    decreases n,
{
    if n <= 0 {
        Seq::empty()
    } else {
        table_attacks(t, n - 1) + match t.intents[n - 1] {
            Some(a) => seq![(a.0, t.strengths[n - 1].0)],
            None => Seq::empty(),
        }
    }
}

/// The attacks pending in all tables with strength, table after table.
pub open spec fn pending_attacks(ts: Seq<TableView>) -> Seq<(Entity, usize)>
    decreases ts.len(),
{
    if ts.len() == 0 {
        Seq::empty()
    } else {
        let t = ts.last();
        pending_attacks(ts.drop_last()) + if t.key.has_strength {
            table_attacks(t, t.entities.len() as int)
        } else {
            Seq::empty()
        }
    }
}

/// Each hit goes to the target of the matching attack and deals at most the attacker's strength.
pub open spec fn rolled(hits: Seq<(Entity, Damage)>, attacks: Seq<(Entity, usize)>) -> bool {
    &&& hits.len() == attacks.len()
    &&& forall|k: int|
        0 <= k < hits.len() ==> #[trigger] hits[k].0 == attacks[k].0 && hits[k].1.0
            <= attacks[k].1
}

/// A table with every intent consumed, if it has strength.
pub open spec fn cleared(t: TableView) -> TableView {
    if t.key.has_strength {
        TableView { intents: Seq::new(t.intents.len(), |j: int| None), ..t }
    } else {
        t
    }
}

/// The hit points `hp` of entity `e` after the hits, each subtracted in order and floored at zero.
pub open spec fn hp_after(hp: usize, hits: Seq<(Entity, Damage)>, e: Entity) -> usize
    decreases hits.len(),
{
    if hits.len() == 0 {
        hp
    } else {
        let h = hp_after(hp, hits.drop_last(), e);
        let last = hits.last();
        if last.0 == e {
            if h >= last.1.0 {
                (h - last.1.0) as usize
            } else {
                0
            }
        } else {
            h
        }
    }
}

/// A table after the hits land on its rows, if it has hit points.
pub open spec fn damaged(t: TableView, hits: Seq<(Entity, Damage)>) -> TableView {
    if t.key.has_hp {
        TableView {
            hitpoints: Seq::new(
                t.hitpoints.len(),
                |j: int| HP(hp_after(t.hitpoints[j].0, hits, t.entities[j])),
            ),
            ..t
        }
    } else {
        t
    }
}

proof fn lemma_rolled_concat(
    h1: Seq<(Entity, Damage)>,
    a1: Seq<(Entity, usize)>,
    h2: Seq<(Entity, Damage)>,
    a2: Seq<(Entity, usize)>,
)
    requires
        rolled(h1, a1),
        rolled(h2, a2),
    ensures
        rolled(h1 + h2, a1 + a2),
{
    let h = h1 + h2;
    let a = a1 + a2;
    assert forall|k: int| 0 <= k < h.len() implies #[trigger] h[k].0 == a[k].0 && h[k].1.0
        <= a[k].1 by {
        if k < h1.len() {
            assert(h[k] == h1[k] && a[k] == a1[k]);
            assert(h1[k].0 == a1[k].0);
        } else {
            let m = k - h1.len();
            assert(h[k] == h2[m] && a[k] == a2[m]);
            assert(h2[m].0 == a2[m].0);
        }
    }
}

proof fn lemma_no_attacks_no_intents(t: TableView, n: int)
    requires
        0 <= n <= t.intents.len(),
        table_attacks(t, n).len() == 0,
    ensures
        forall|j: int| 0 <= j < n ==> t.intents[j].is_none(),
    decreases n,
{
    if n > 0 {
        lemma_no_attacks_no_intents(t, n - 1);
    }
}

proof fn lemma_no_hits(hp: usize, e: Entity)
    ensures
        hp_after(hp, Seq::empty(), e) == hp,
{
}

/// Resolves combat: every pending aggression intent is rolled into damage and consumed,
/// then all the damage lands, each amount taken from the target's hit points.
pub struct DamageSystem;

impl DamageSystem {
    /// Rolls the damage of one attack: a miss one time in twenty deals nothing, otherwise
    /// a uniform draw in `1..=strength`.
    pub fn calculate_damage(strength: &Strength) -> (r: Damage)
        ensures
            r.0 <= strength.0,
            strength.0 > 0 ==> r.0 == 0 || 1 <= r.0,
    {
        let miss = chance(1, 20);
        let roll = if strength.0 == 0 {
            0
        } else {
            random_below(0, strength.0)
        };
        Self::damage_from_rolls(strength, miss, roll)
    }

    /// The damage of an attack given its two draws: whether it missed, and a roll below
    /// the strength.
    pub fn damage_from_rolls(strength: &Strength, miss: bool, roll: usize) -> (r: Damage)
        requires
            strength.0 == 0 || roll < strength.0,
        ensures
            r.0 == damage_value(strength.0, miss, roll),
            miss ==> r.0 == 0,
            !miss && strength.0 > 0 ==> 1 <= r.0 <= strength.0,
    {
        if miss || strength.0 == 0 {
            Damage(0)
        } else {
            Damage(roll + 1)
        }
    }

    /// Rolls the attacks pending in `t`, appends them to `hits` and consumes the intents.
    fn collect_attacks(t: &mut Table, hits: &mut Vec<(Entity, Damage)>)
        requires
            old(t)@.wf(),
            old(t)@.key.has_strength,
        ensures
            final(t)@ == cleared(old(t)@),
            final(hits)@.subrange(0, old(hits)@.len() as int) == old(hits)@,
            final(hits)@.len() >= old(hits)@.len(),
            rolled(
                final(hits)@.subrange(old(hits)@.len() as int, final(hits)@.len() as int),
                table_attacks(old(t)@, old(t)@.entities.len() as int),
            ),
    {
        let ghost o = t@;
        let ghost h0 = hits@;
        let n = t.len();
        let mut j: usize = 0;
        assert(t@.intents =~= Seq::new(0, |k: int| None) + o.intents.subrange(0, n as int));
        while j < n
            invariant
                o.wf(),
                o.key.has_strength,
                n == o.entities.len(),
                j <= n,
                t@ == (TableView {
                    intents: Seq::new(j as nat, |k: int| None) + o.intents.subrange(
                        j as int,
                        n as int,
                    ),
                    ..o
                }),
                hits@.len() >= h0.len(),
                hits@.subrange(0, h0.len() as int) == h0,
                rolled(hits@.subrange(h0.len() as int, hits@.len() as int), table_attacks(o, j as int)),
            decreases n - j,
        {
            assert(t@.intents[j as int] == o.intents[j as int]);
            let ghost hb = hits@;
            if let Some(a) = t.aggression_intents[j] {
                let d = Self::calculate_damage(&t.strengths[j]);
                hits.push((a.0, d));
                t.aggression_intents[j] = None;
                proof {
                    let news = hits@.subrange(h0.len() as int, hits@.len() as int);
                    let olds = hb.subrange(h0.len() as int, hb.len() as int);
                    let one = seq![(a.0, d)];
                    let att = seq![(a.0, o.strengths[j as int].0)];
                    assert(news =~= olds + one);
                    assert(table_attacks(o, j + 1) =~= table_attacks(o, j as int) + att);
                    assert(hits@.subrange(0, h0.len() as int) =~= hb.subrange(0, h0.len() as int));
                    assert(rolled(one, att)) by {
                        assert(one[0].0 == att[0].0);
                    }
                    lemma_rolled_concat(olds, table_attacks(o, j as int), one, att);
                }
            } else {
                assert(table_attacks(o, j + 1) =~= table_attacks(o, j as int));
            }
            j = j + 1;
            assert(t@.intents =~= Seq::new(j as nat, |k: int| None) + o.intents.subrange(
                j as int,
                n as int,
            ));
        }
        assert(t@.intents =~= Seq::new(o.intents.len(), |k: int| None));
    }

    /// Takes each hit's damage from the hit points of every row of `t` that holds its target.
    fn damage_table(t: &mut Table, hits: &Vec<(Entity, Damage)>)
        requires
            old(t)@.wf(),
            old(t)@.key.has_hp,
        ensures
            final(t)@ == damaged(old(t)@, hits@),
    {
        let ghost o = t@;
        let n = t.len();
        let mut j: usize = 0;
        assert(t@.hitpoints =~= Seq::new(
            0,
            |k: int| HP(hp_after(o.hitpoints[k].0, hits@, o.entities[k])),
        ) + o.hitpoints.subrange(0, n as int));
        while j < n
            invariant
                o.wf(),
                o.key.has_hp,
                n == o.entities.len(),
                j <= n,
                t@ == (TableView {
                    hitpoints: Seq::new(
                        j as nat,
                        |k: int| HP(hp_after(o.hitpoints[k].0, hits@, o.entities[k])),
                    ) + o.hitpoints.subrange(j as int, n as int),
                    ..o
                }),
            decreases n - j,
        {
            let e = t.entities[j];
            assert(t@.hitpoints[j as int] == o.hitpoints[j as int]);
            let mut h: usize = t.hitpoints[j].0;
            let mut k: usize = 0;
            while k < hits.len()
                invariant
                    k <= hits@.len(),
                    h == hp_after(o.hitpoints[j as int].0, hits@.subrange(0, k as int), e),
                decreases hits@.len() - k,
            {
                assert(hits@.subrange(0, k + 1).drop_last() =~= hits@.subrange(0, k as int));
                if hits[k].0 == e {
                    if h >= hits[k].1.0 {
                        h = h - hits[k].1.0;
                    } else {
                        h = 0;
                    }
                }
                k = k + 1;
            }
            assert(hits@.subrange(0, hits@.len() as int) =~= hits@);
            t.hitpoints[j] = HP(h);
            j = j + 1;
            assert(t@.hitpoints =~= Seq::new(
                j as nat,
                |k: int| HP(hp_after(o.hitpoints[k].0, hits@, o.entities[k])),
            ) + o.hitpoints.subrange(j as int, n as int));
        }
        assert(t@.hitpoints =~= damaged(o, hits@).hitpoints);
    }

    /// Applies the hits: in every table with hit points, each row loses the damage of
    /// every hit on its entity, floored at zero. Nothing else changes.
    pub fn apply(world: &mut World, hits: &Vec<(Entity, Damage)>)
        requires
            old(world).wf(),
        ensures
            final(world).wf(),
            final(world).next_entity == old(world).next_entity,
            final(world).map == old(world).map,
            final(world).turn_state == old(world).turn_state,
            final(world).tables_view() == old(world).tables_view().map_values(
                |t: TableView| damaged(t, hits@),
            ),
    {
        let ghost o = world.tables_view();
        let mut ti: usize = 0;
        while ti < world.tables.len()
            invariant
                world.next_entity == old(world).next_entity,
                world.map == old(world).map,
                world.turn_state == old(world).turn_state,
                o == old(world).tables_view(),
                tables_wf(o, world.next_entity),
                world.tables@.len() == o.len(),
                ti <= o.len(),
                forall|j: int| 0 <= j < ti ==> world.tables_view()[j] == damaged(o[j], hits@),
                forall|j: int| ti <= j < o.len() ==> world.tables_view()[j] == o[j],
            decreases o.len() - ti,
        {
            let ghost before = world.tables_view();
            assert(before[ti as int] == world.tables@[ti as int]@);
            assert(o[ti as int].wf());
            if world.tables[ti].key.has_hp {
                damage_table_at(world, ti, hits);
            }
            proof {
                let after = world.tables_view();
                assert forall|j: int| 0 <= j < after.len() && j != ti implies after[j]
                    == before[j] by {}
            }
            ti = ti + 1;
        }
        proof {
            let f = world.tables_view();
            assert(f =~= o.map_values(|t: TableView| damaged(t, hits@)));
            assert forall|i: int| 0 <= i < f.len() implies #[trigger] f[i].wf() by {
                assert(o[i].wf());
            }
        }
    }

    /// Rolls every pending attack and consumes its intent, then applies all the damage.
    /// With no intent pending, nothing changes.
    #[verifier::rlimit(30)]
    pub fn run(world: &mut World)
        requires
            old(world).wf(),
        ensures
            final(world).wf(),
            final(world).next_entity == old(world).next_entity,
            final(world).map == old(world).map,
            final(world).turn_state == old(world).turn_state,
            exists|hits: Seq<(Entity, Damage)>|
                rolled(hits, pending_attacks(old(world).tables_view()))
                    && final(world).tables_view() == old(world).tables_view().map_values(
                    |t: TableView| damaged(cleared(t), hits),
                ),
            pending_attacks(old(world).tables_view()).len() == 0 ==> final(world).tables_view()
                == old(world).tables_view(),
    {
        let ghost o = world.tables_view();
        let mut hits: Vec<(Entity, Damage)> = Vec::new();
        let mut ti: usize = 0;
        while ti < world.tables.len()
            invariant
                world.next_entity == old(world).next_entity,
                world.map == old(world).map,
                world.turn_state == old(world).turn_state,
                o == old(world).tables_view(),
                tables_wf(o, world.next_entity),
                world.tables@.len() == o.len(),
                ti <= o.len(),
                forall|j: int| 0 <= j < ti ==> world.tables_view()[j] == cleared(o[j]),
                forall|j: int| ti <= j < o.len() ==> world.tables_view()[j] == o[j],
                rolled(hits@, pending_attacks(o.take(ti as int))),
            decreases o.len() - ti,
        {
            let ghost before = world.tables_view();
            let ghost hb = hits@;
            assert(before[ti as int] == world.tables@[ti as int]@);
            assert(o[ti as int].wf());
            assert(o.take(ti + 1).drop_last() =~= o.take(ti as int));
            if world.tables[ti].key.has_strength {
                collect_attacks_at(world, ti, &mut hits);
                proof {
                    let t = o[ti as int];
                    let ta = table_attacks(t, t.entities.len() as int);
                    let news = hits@.subrange(hb.len() as int, hits@.len() as int);
                    assert(hits@ =~= hb + news);
                    assert(pending_attacks(o.take(ti + 1)) =~= pending_attacks(o.take(ti as int)) + ta);
                    lemma_rolled_concat(hb, pending_attacks(o.take(ti as int)), news, ta);
                }
            } else {
                assert(pending_attacks(o.take(ti + 1)) =~= pending_attacks(o.take(ti as int)));
                assert(rolled(hits@, pending_attacks(o.take(ti + 1))));
            }
            proof {
                let after = world.tables_view();
                assert(after.len() == world.tables@.len());
                assert forall|j: int| 0 <= j < after.len() && j != ti implies after[j]
                    == before[j] by {}
            }
            ti = ti + 1;
        }
        assert(o.take(o.len() as int) =~= o);
        let ghost mid = world.tables_view();
        proof {
            assert(mid =~= o.map_values(|t: TableView| cleared(t)));
            assert forall|i: int| 0 <= i < mid.len() implies #[trigger] mid[i].wf() by {
                assert(o[i].wf());
            }
        }
        Self::apply(world, &hits);
        proof {
            let f = world.tables_view();
            assert(f =~= o.map_values(|t: TableView| damaged(cleared(t), hits@)));
            if pending_attacks(o).len() == 0 {
                assert(hits@ =~= Seq::empty());
                lemma_no_pending_attacks(o);
                assert(f =~= o);
            }
        }
    }
}

/// With no attack pending, consuming the intents and applying no hits leaves every table as it was.
pub proof fn lemma_no_pending_attacks(ts: Seq<TableView>)
    requires
        forall|i: int| 0 <= i < ts.len() ==> #[trigger] ts[i].wf(),
        pending_attacks(ts).len() == 0,
    ensures
        ts.map_values(|t: TableView| damaged(cleared(t), Seq::empty())) == ts,
    decreases ts.len(),
{
    if ts.len() > 0 {
        let init = ts.drop_last();
        assert forall|i: int| 0 <= i < init.len() implies #[trigger] init[i].wf() by {
            assert(init[i] == ts[i]);
        }
        lemma_no_pending_attacks(init);
    }
    assert forall|i: int| 0 <= i < ts.len() implies damaged(cleared(ts[i]), Seq::empty())
        == ts[i] by {
        let t = ts[i];
        assert(t.wf());
        if t.key.has_strength {
            lemma_pending_prefix(ts, i);
            lemma_no_attacks_no_intents(t, t.entities.len() as int);
            assert(cleared(t).intents =~= t.intents);
        }
        assert(cleared(t) == t);
        if t.key.has_hp {
            assert forall|j: int| 0 <= j < t.hitpoints.len() implies hp_after(
                t.hitpoints[j].0,
                Seq::empty(),
                t.entities[j],
            ) == t.hitpoints[j].0 by {
                lemma_no_hits(t.hitpoints[j].0, t.entities[j]);
            }
            assert(damaged(t, Seq::empty()).hitpoints =~= t.hitpoints);
        }
    }
    assert(ts.map_values(|t: TableView| damaged(cleared(t), Seq::empty())) =~= ts);
}

/// The attacks of table `i` are part of the attacks of all tables.
proof fn lemma_pending_prefix(ts: Seq<TableView>, i: int)
    requires
        0 <= i < ts.len(),
        pending_attacks(ts).len() == 0,
        ts[i].key.has_strength,
    ensures
        table_attacks(ts[i], ts[i].entities.len() as int).len() == 0,
    decreases ts.len(),
{
    if i < ts.len() - 1 {
        assert(ts.drop_last()[i] == ts[i]);
        lemma_pending_prefix(ts.drop_last(), i);
    }
}

/// Rolls the attacks of table `ti` of the world into `hits`.
fn collect_attacks_at(world: &mut World, ti: usize, hits: &mut Vec<(Entity, Damage)>)
    requires
        ti < old(world).tables@.len(),
        old(world).tables@[ti as int]@.wf(),
        old(world).tables@[ti as int]@.key.has_strength,
    ensures
        final(world).tables_view() == old(world).tables_view().update(
            ti as int,
            cleared(old(world).tables_view()[ti as int]),
        ),
        final(world).next_entity == old(world).next_entity,
        final(world).map == old(world).map,
        final(world).turn_state == old(world).turn_state,
        final(hits)@.subrange(0, old(hits)@.len() as int) == old(hits)@,
        final(hits)@.len() >= old(hits)@.len(),
        rolled(
            final(hits)@.subrange(old(hits)@.len() as int, final(hits)@.len() as int),
            table_attacks(
                old(world).tables_view()[ti as int],
                old(world).tables_view()[ti as int].entities.len() as int,
            ),
        ),
{
    let ghost o = world.tables_view();
    DamageSystem::collect_attacks(&mut world.tables[ti], hits);
    assert(world.tables_view() =~= o.update(ti as int, cleared(o[ti as int])));
}

/// Lands the hits on table `ti` of the world.
fn damage_table_at(world: &mut World, ti: usize, hits: &Vec<(Entity, Damage)>)
    requires
        ti < old(world).tables@.len(),
        old(world).tables@[ti as int]@.wf(),
        old(world).tables@[ti as int]@.key.has_hp,
    ensures
        final(world).tables_view() == old(world).tables_view().update(
            ti as int,
            damaged(old(world).tables_view()[ti as int], hits@),
        ),
        final(world).next_entity == old(world).next_entity,
        final(world).map == old(world).map,
        final(world).turn_state == old(world).turn_state,
{
    let ghost o = world.tables_view();
    DamageSystem::damage_table(&mut world.tables[ti], hits);
    assert(world.tables_view() =~= o.update(ti as int, damaged(o[ti as int], hits@)));
}

} // verus!
