use vstd::prelude::*;

use crate::components::HP;
use crate::world::{ids_unique, tables_wf, Table, TableView, World};

verus! {

/// The entries of `col` at rows `lo..hi` whose hit points are not zero, in order.
pub open spec fn kept<T>(col: Seq<T>, hp: Seq<HP>, lo: int, hi: int) -> Seq<T>
    decreases hi - lo,
{
    if lo >= hi {
        Seq::empty()
    } else {
        (if hp[lo].0 == 0 {
            Seq::empty()
        } else {
            seq![col[lo]]
        }) + kept(col, hp, lo + 1, hi)
    }
}

/// A table after its dead rows (hit points zero) are removed from every present column.
/// A table without hit points is left as it is.
pub open spec fn cull(t: TableView) -> TableView {
    if !t.key.has_hp {
        t
    } else {
        let n = t.entities.len() as int;
        let hp = t.hitpoints;
        TableView {
            key: t.key,
            entities: kept(t.entities, hp, 0, n),
            positions: if t.key.has_position {
                kept(t.positions, hp, 0, n)
            } else {
                t.positions
            },
            hitpoints: kept(hp, hp, 0, n),
            intents: kept(t.intents, hp, 0, n),
            strengths: if t.key.has_strength {
                kept(t.strengths, hp, 0, n)
            } else {
                t.strengths
            },
            loot: if t.key.has_loot {
                kept(t.loot, hp, 0, n)
            } else {
                t.loot
            },
        }
    }
}

/// Removing the dead row just below `i` extends the kept suffix by one row.
proof fn lemma_kept_step<T>(col: Seq<T>, hp: Seq<HP>, i: int, n: int)
    requires
        0 < i <= n,
        n <= col.len(),
        n <= hp.len(),
    ensures
        hp[i - 1].0 == 0 ==> (col.subrange(0, i) + kept(col, hp, i, n)).remove(i - 1)
            == col.subrange(0, i - 1) + kept(col, hp, i - 1, n),
        hp[i - 1].0 != 0 ==> col.subrange(0, i) + kept(col, hp, i, n) == col.subrange(0, i - 1)
            + kept(col, hp, i - 1, n),
{
    let k = kept(col, hp, i, n);
    if hp[i - 1].0 == 0 {
        assert(kept(col, hp, i - 1, n) =~= k);
        assert((col.subrange(0, i) + k).remove(i - 1) =~= col.subrange(0, i - 1) + k);
    } else {
        assert(kept(col, hp, i - 1, n) =~= seq![col[i - 1]] + k);
        assert(col.subrange(0, i) + k =~= col.subrange(0, i - 1) + (seq![col[i - 1]] + k));
    }
}

/// Keeping some entries of distinct ones keeps them distinct, each from its range.
proof fn lemma_kept_distinct<T>(col: Seq<T>, hp: Seq<HP>, lo: int, hi: int)
    requires
        0 <= lo <= hi <= col.len(),
        col.no_duplicates(),
    ensures
        kept(col, hp, lo, hi).no_duplicates(),
        forall|r: int|
            0 <= r < kept(col, hp, lo, hi).len() ==> exists|m: int|
                lo <= m < hi && col[m] == #[trigger] kept(col, hp, lo, hi)[r],
    decreases hi - lo,
{
    if lo < hi {
        lemma_kept_distinct(col, hp, lo + 1, hi);
        let rest = kept(col, hp, lo + 1, hi);
        let head = if hp[lo].0 == 0 {
            Seq::<T>::empty()
        } else {
            seq![col[lo]]
        };
        let k = kept(col, hp, lo, hi);
        assert(k == head + rest);
        assert forall|r: int| 0 <= r < k.len() implies exists|m: int|
            lo <= m < hi && col[m] == #[trigger] k[r] by {
            if r < head.len() {
                assert(col[lo] == k[r]);
            } else {
                assert(k[r] == rest[r - head.len()]);
                let m = choose|m: int| lo + 1 <= m < hi && col[m] == #[trigger] rest[r - head.len()];
                assert(col[m] == k[r]);
            }
        }
        assert forall|a: int, b: int| 0 <= a < k.len() && 0 <= b < k.len() && a != b implies k[a]
            != k[b] by {
            if a >= head.len() && b >= head.len() {
                assert(k[a] == rest[a - head.len()] && k[b] == rest[b - head.len()]);
            } else if a < head.len() && b >= head.len() {
                assert(k[b] == rest[b - head.len()]);
                let m = choose|m: int| lo + 1 <= m < hi && col[m] == #[trigger] rest[b - head.len()];
                assert(k[a] == col[lo]);
            } else if b < head.len() && a >= head.len() {
                assert(k[a] == rest[a - head.len()]);
                let m = choose|m: int| lo + 1 <= m < hi && col[m] == #[trigger] rest[a - head.len()];
                assert(k[b] == col[lo]);
            }
        }
    }
}

/// Removes the rows of `t` whose hit points are zero, from the highest index down.
fn cull_table(t: &mut Table)
    requires
        old(t)@.wf(),
    ensures
        final(t)@.wf(),
        final(t)@ == cull(old(t)@),
        forall|r: int|
            0 <= r < final(t)@.entities.len() ==> old(t)@.entities.contains(
                #[trigger] final(t)@.entities[r],
            ),
        old(t)@.entities.no_duplicates() ==> final(t)@.entities.no_duplicates(),
{
    if !t.key.has_hp {
        return ;
    }
    let ghost o = t@;
    let ghost n = o.entities.len() as int;
    let ghost hp = o.hitpoints;
    let mut i: usize = t.len();
    while i > 0
        invariant
            o.wf(),
            o.key.has_hp,
            n == o.entities.len(),
            hp == o.hitpoints,
            t@.wf(),
            t@.key == o.key,
            0 <= i <= n,
            t@.entities == o.entities.subrange(0, i as int) + kept(o.entities, hp, i as int, n),
            t@.hitpoints == hp.subrange(0, i as int) + kept(hp, hp, i as int, n),
            t@.intents == o.intents.subrange(0, i as int) + kept(o.intents, hp, i as int, n),
            o.key.has_position ==> t@.positions == o.positions.subrange(0, i as int) + kept(
                o.positions,
                hp,
                i as int,
                n,
            ),
            !o.key.has_position ==> t@.positions == o.positions,
            o.key.has_strength ==> t@.strengths == o.strengths.subrange(0, i as int) + kept(
                o.strengths,
                hp,
                i as int,
                n,
            ),
            !o.key.has_strength ==> t@.strengths == o.strengths,
            o.key.has_loot ==> t@.loot == o.loot.subrange(0, i as int) + kept(
                o.loot,
                hp,
                i as int,
                n,
            ),
            !o.key.has_loot ==> t@.loot == o.loot,
            forall|r: int|
                0 <= r < t@.entities.len() ==> o.entities.contains(#[trigger] t@.entities[r]),
        decreases i,
    {
        i = i - 1;
        proof {
            lemma_kept_step(o.entities, hp, i + 1, n);
            lemma_kept_step(hp, hp, i + 1, n);
            lemma_kept_step(o.intents, hp, i + 1, n);
            if o.key.has_position {
                lemma_kept_step(o.positions, hp, i + 1, n);
            }
            if o.key.has_strength {
                lemma_kept_step(o.strengths, hp, i + 1, n);
            }
            if o.key.has_loot {
                lemma_kept_step(o.loot, hp, i + 1, n);
            }
            assert(t@.hitpoints[i as int] == hp[i as int]);
        }
        if t.hitpoints[i].0 == 0 {
            let ghost before = t@.entities;
            t.remove_row(i);
            assert forall|r: int| 0 <= r < t@.entities.len() implies o.entities.contains(
                #[trigger] t@.entities[r],
            ) by {
                if r < i {
                    assert(t@.entities[r] == before[r]);
                } else {
                    assert(t@.entities[r] == before[r + 1]);
                }
            }
        }
    }
    assert(t@.entities =~= kept(o.entities, hp, 0, n));
    proof {
        if o.entities.no_duplicates() {
            lemma_kept_distinct(o.entities, hp, 0, n);
        }
    }
    assert(t@.hitpoints =~= kept(hp, hp, 0, n));
    assert(t@.intents =~= kept(o.intents, hp, 0, n));
    assert(o.key.has_position ==> t@.positions =~= kept(o.positions, hp, 0, n));
    assert(o.key.has_strength ==> t@.strengths =~= kept(o.strengths, hp, 0, n));
    assert(o.key.has_loot ==> t@.loot =~= kept(o.loot, hp, 0, n));
}

/// Removes every entity whose hit points reached zero. A removed entity vanishes: no
/// corpse takes its place, and its id is never handed out again.
pub struct DeathSystem;

impl DeathSystem {
    /// In every table with hit points, removes the rows whose hit points are zero from
    /// every present column, from the highest index down; no other table changes.
    pub fn run(world: &mut World)
        requires
            old(world).wf(),
        ensures
            final(world).wf(),
            final(world).next_entity == old(world).next_entity,
            final(world).map == old(world).map,
            final(world).turn_state == old(world).turn_state,
            final(world).tables_view() == old(world).tables_view().map_values(
                |t: TableView| cull(t),
            ),
    {
        let ghost o = world.tables_view();
        let mut ti: usize = 0;
        while ti < world.tables.len()
            invariant
                tables_wf(o, world.next_entity),
                world.next_entity == old(world).next_entity,
                world.map == old(world).map,
                world.turn_state == old(world).turn_state,
                o == old(world).tables_view(),
                world.tables@.len() == o.len(),
                ti <= o.len(),
                tables_wf(world.tables_view(), world.next_entity),
                forall|j: int| 0 <= j < ti ==> world.tables_view()[j] == cull(o[j]),
                forall|j: int| ti <= j < o.len() ==> world.tables_view()[j] == o[j],
            decreases o.len() - ti,
        {
            let ghost before = world.tables_view();
            assert(before[ti as int].wf());
            assert(before[ti as int] == world.tables@[ti as int]@);
            cull_table(&mut world.tables[ti]);
            proof {
                let after = world.tables_view();
                assert forall|j: int| 0 <= j < after.len() && j != ti implies after[j]
                    == before[j] by {}
                assert(after[ti as int].key == before[ti as int].key);
                assert forall|j: int, r: int|
                    0 <= j < after.len() && 0 <= r < after[j].entities.len() implies after[j].entities[r]
                    < world.next_entity by {
                    if j == ti {
                        assert(before[j].entities.contains(after[j].entities[r]));
                    }
                }
                lemma_unique_after_removal(before, after, ti as int);
            }
            ti = ti + 1;
        }
        assert(world.tables_view() =~= o.map_values(|t: TableView| cull(t)));
    }
}

/// Unique ids stay unique when one table keeps only some of its ids.
proof fn lemma_unique_after_removal(before: Seq<TableView>, after: Seq<TableView>, ti: int)
    requires
        ids_unique(before),
        0 <= ti < before.len(),
        after.len() == before.len(),
        forall|j: int| 0 <= j < after.len() && j != ti ==> after[j] == before[j],
        forall|r: int|
            0 <= r < after[ti].entities.len() ==> before[ti].entities.contains(
                #[trigger] after[ti].entities[r],
            ),
        before[ti].entities.no_duplicates() ==> after[ti].entities.no_duplicates(),
    ensures
        ids_unique(after),
{
    assert(before[ti].entities.no_duplicates()) by {
        assert forall|a: int, b: int|
            0 <= a < before[ti].entities.len() && 0 <= b < before[ti].entities.len() && a != b
                implies before[ti].entities[a] != before[ti].entities[b] by {
            assert(before[ti].entities[a] != before[ti].entities[b]);
        }
    }
    assert forall|i: int, r: int, j: int, q: int|
        0 <= i < after.len() && 0 <= r < after[i].entities.len() && 0 <= j < after.len() && 0 <= q
            < after[j].entities.len() && (i != j || r != q) implies #[trigger] after[i].entities[r]
        != #[trigger] after[j].entities[q] by {
        if i == ti && j == ti {
        } else if i == ti {
            let m = choose|m: int|
                0 <= m < before[ti].entities.len() && before[ti].entities[m] == after[i].entities[r];
            assert(after[j] == before[j]);
            assert(before[ti].entities[m] != before[j].entities[q]);
        } else if j == ti {
            let m = choose|m: int|
                0 <= m < before[ti].entities.len() && before[ti].entities[m] == after[j].entities[q];
            assert(after[i] == before[i]);
            assert(before[i].entities[r] != before[ti].entities[m]);
        } else {
            assert(after[i] == before[i] && after[j] == before[j]);
        }
    }
}

/// The number of rows in `lo..hi` whose hit points are zero.
pub open spec fn dead_rows(hp: Seq<HP>, lo: int, hi: int) -> int
    decreases hi - lo,
{
    if lo >= hi {
        0
    } else {
        (if hp[lo].0 == 0 {
            1int
        } else {
            0int
        }) + dead_rows(hp, lo + 1, hi)
    }
}

proof fn lemma_kept_len<T>(col: Seq<T>, hp: Seq<HP>, lo: int, hi: int)
    requires
        0 <= lo <= hi,
    ensures
        kept(col, hp, lo, hi).len() == (hi - lo) - dead_rows(hp, lo, hi),
    decreases hi - lo,
{
    if lo < hi {
        lemma_kept_len(col, hp, lo + 1, hi);
    }
}

/// The death pass shrinks each table with hit points by exactly its number of rows with
/// zero hit points, and leaves the size of every other table as it was.
pub proof fn lemma_death_removes_dead_rows(ts: Seq<TableView>)
    ensures
        forall|i: int|
            0 <= i < ts.len() ==> (#[trigger] cull(ts[i])).entities.len() == if ts[i].key.has_hp {
                ts[i].entities.len() - dead_rows(
                    ts[i].hitpoints,
                    0,
                    ts[i].entities.len() as int,
                )
            } else {
                ts[i].entities.len() as int
            },
{
    assert forall|i: int| 0 <= i < ts.len() implies (#[trigger] cull(ts[i])).entities.len()
        == if ts[i].key.has_hp {
        ts[i].entities.len() - dead_rows(ts[i].hitpoints, 0, ts[i].entities.len() as int)
    } else {
        ts[i].entities.len() as int
    } by {
        if ts[i].key.has_hp {
            lemma_kept_len(ts[i].entities, ts[i].hitpoints, 0, ts[i].entities.len() as int);
        }
    }
}

} // verus!
