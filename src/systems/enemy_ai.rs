use vstd::prelude::*;

use crate::components::{ArchetypeKey, Position};
use crate::map::TileMap;
use crate::world::{tables_wf, Table, TableView, World};

use super::aggression::first_controlled;

verus! {

/// The distance between two grid positions along the axes.
pub open spec fn manhattan(a: Position, b: Position) -> int {
    (if a.x >= b.x { a.x - b.x } else { b.x - a.x }) + (if a.y >= b.y { a.y - b.y } else { b.y - a.y })
}

/// One coordinate moved one unit toward `to`.
pub open spec fn toward(from: usize, to: usize) -> usize {
    if from < to {
        (from + 1) as usize
    } else if from > to {
        (from - 1) as usize
    } else {
        from
    }
}

/// The greedy step from `p` toward `goal`: one unit along the axis with the larger gap,
/// the horizontal one on a tie.
pub open spec fn greedy_step(p: Position, goal: Position) -> Position {
    let dx = if p.x >= goal.x { p.x - goal.x } else { goal.x - p.x };
    let dy = if p.y >= goal.y { p.y - goal.y } else { goal.y - p.y };
    if dx >= dy {
        Position { x: toward(p.x, goal.x), y: p.y }
    } else {
        Position { x: p.x, y: toward(p.y, goal.y) }
    }
}

/// Where a hostile at `p` stands after chasing `goal`: the greedy step if its tile is
/// walkable, else where it was.
pub open spec fn chased(p: Position, goal: Position, map: TileMap) -> Position {
    let q = greedy_step(p, goal);
    if map.walkable(q.x as int, q.y as int) {
        q
    } else {
        p
    }
}

/// Whether the rows of a table chase the player.
pub open spec fn is_chaser(k: ArchetypeKey) -> bool {
    k.is_hostile && k.has_position
}

/// A table after each of its chasing rows takes its greedy step toward `goal`.
pub open spec fn chase_table(t: TableView, goal: Position, map: TileMap) -> TableView {
    if is_chaser(t.key) {
        TableView { positions: t.positions.map_values(|p: Position| chased(p, goal, map)), ..t }
    } else {
        t
    }
}

/// The tables after the greedy chase: without a player nothing changes.
pub open spec fn chase_outcome(ts: Seq<TableView>, map: TileMap) -> Seq<TableView> {
    let pi = first_controlled(ts, 0);
    if pi < 0 || ts[pi].entities.len() == 0 {
        ts
    } else {
        ts.map_values(|t: TableView| chase_table(t, ts[pi].positions[0], map))
    }
}

/// Whether `q` is one of the four tiles next to `p`.
pub open spec fn adjacent(p: Position, q: Position) -> bool {
    manhattan(p, q) == 1
}

/// Whether `w` is a walk: a non-empty sequence of walkable tiles, each next to the one before.
pub open spec fn is_walk(map: TileMap, w: Seq<Position>) -> bool {
    &&& w.len() > 0
    &&& forall|i: int| 0 <= i < w.len() ==> map.walkable(#[trigger] w[i].x as int, w[i].y as int)
    &&& forall|i: int| 0 <= i < w.len() - 1 ==> adjacent(#[trigger] w[i], w[i + 1])
}

/// Whether a walk of `k` steps leads from `a` to `goal`.
pub open spec fn connected(map: TileMap, a: Position, goal: Position, k: nat) -> bool {
    exists|w: Seq<Position>|
        #[trigger] is_walk(map, w) && w.len() == k + 1 && w[0] == a && w.last() == goal
}

/// A walk from a neighbour extends by one step to a walkable tile.
proof fn lemma_connected_step(map: TileMap, q: Position, p: Position, goal: Position, k: nat)
    requires
        map.walkable(q.x as int, q.y as int),
        adjacent(q, p),
        connected(map, p, goal, k),
    ensures
        connected(map, q, goal, k + 1),
{
    let w = choose|w: Seq<Position>|
        #[trigger] is_walk(map, w) && w.len() == k + 1 && w[0] == p && w.last() == goal;
    let w2 = seq![q] + w;
    assert forall|i: int| 0 <= i < w2.len() implies map.walkable(
        #[trigger] w2[i].x as int,
        w2[i].y as int,
    ) by {
        if i > 0 {
            assert(w2[i] == w[i - 1]);
        }
    }
    assert forall|i: int| 0 <= i < w2.len() - 1 implies adjacent(#[trigger] w2[i], w2[i + 1]) by {
        if i > 0 {
            assert(w2[i] == w[i - 1] && w2[i + 1] == w[i]);
        }
    }
    assert(is_walk(map, w2) && w2.len() == (k + 1) + 1 && w2[0] == q && w2.last() == goal);
}

/// A tile is connected to itself by the walk of no step.
proof fn lemma_connected_self(map: TileMap, goal: Position)
    requires
        map.walkable(goal.x as int, goal.y as int),
    ensures
        connected(map, goal, goal, 0),
{
    let w = seq![goal];
    assert(is_walk(map, w) && w.len() == 0 + 1 && w[0] == goal && w.last() == goal);
}

/// Whether some walk over walkable tiles leads from `a` to `goal`.
pub open spec fn has_path(map: TileMap, a: Position, goal: Position) -> bool {
    exists|k: nat| #[trigger] connected(map, a, goal, k)
}

/// The player's position: the first row of the first controlled table, if there is one.
pub open spec fn player_position(ts: Seq<TableView>) -> Option<Position> {
    let pi = first_controlled(ts, 0);
    if pi < 0 || ts[pi].entities.len() == 0 {
        None
    } else {
        Some(ts[pi].positions[0])
    }
}


/// A table after a tick of path following toward `goal`: only the positions of chasing
/// rows change, each by at most one step onto a tile from which the goal can be reached;
/// without a goal nothing changes.
pub open spec fn pathed_table(
    before: TableView,
    after: TableView,
    map: TileMap,
    goal: Option<Position>,
) -> bool {
    &&& after == (TableView { positions: after.positions, ..before })
    &&& after.positions.len() == before.positions.len()
    &&& (!is_chaser(before.key) || goal.is_none()) ==> after.positions == before.positions
    &&& is_chaser(before.key) && goal.is_some() ==> forall|j: int|
        0 <= j < before.positions.len() ==> steps_toward(
            before.positions[j],
            #[trigger] after.positions[j],
            map,
            goal.unwrap(),
        )
}

/// Whether each reached entry of `dist` is the length of a walk from its tile to `goal`.
pub open spec fn sound_distances(map: TileMap, dist: Seq<usize>, goal: Position) -> bool {
    &&& dist.len() == map@.0.len()
    &&& forall|p: Position|
        map.walkable(p.x as int, p.y as int) && dist[map.index_of(p.x as int, p.y as int)]
            != usize::MAX ==> #[trigger] connected(
            map,
            p,
            goal,
            dist[map.index_of(p.x as int, p.y as int)] as nat,
        )
}

/// Whether the shortest walk from `t` to `goal` takes `d` steps.
pub open spec fn is_distance(map: TileMap, t: Position, goal: Position, d: nat) -> bool {
    connected(map, t, goal, d) && forall|k: nat| k < d ==> !#[trigger] connected(map, t, goal, k)
}

/// Whether `q` is the first of the walkable neighbours of `p`, in the order left, right,
/// up, down, whose shortest walk to `goal` takes `d - 1` steps.
pub open spec fn first_nearest(p: Position, q: Position, map: TileMap, goal: Position, d: nat) -> bool {
    let nb = walkable_neighbours(p, map);
    exists|j: int|
        0 <= j < nb.len() && #[trigger] nb[j] == q && is_distance(map, q, goal, (d - 1) as nat)
            && forall|j2: int| 0 <= j2 < j ==> !is_distance(map, nb[j2], goal, (d - 1) as nat)
}

/// Whether `p` is a positive distance from `goal`, one that fits below `usize::MAX`.
pub open spec fn has_distance(map: TileMap, p: Position, goal: Position) -> bool {
    exists|d: nat| #[trigger] is_distance(map, p, goal, d) && 0 < d < usize::MAX
}

/// Where a hostile at `p` goes in one tick of chasing `goal`: if `p` is a positive
/// distance from the goal, to the first of its walkable neighbours, in the order left,
/// right, up, down, that is one step nearer; otherwise (on the goal, or with no walk to
/// it) nowhere.
pub open spec fn steps_toward(p: Position, q: Position, map: TileMap, goal: Position) -> bool {
    if has_distance(map, p, goal) {
        let d = choose|d: nat| #[trigger] is_distance(map, p, goal, d) && 0 < d < usize::MAX;
        first_nearest(p, q, map, goal, d)
    } else {
        q == p
    }
}

/// A shortest walk is unique in length.
proof fn lemma_distance_unique(map: TileMap, p: Position, goal: Position, d1: nat, d2: nat)
    requires
        is_distance(map, p, goal, d1),
        is_distance(map, p, goal, d2),
    ensures
        d1 == d2,
{
    if d1 < d2 {
        assert(!connected(map, p, goal, d1));
    } else if d2 < d1 {
        assert(!connected(map, p, goal, d2));
    }
}

/// A tile with a walk to the goal has a shortest one, no longer.
proof fn lemma_has_shortest(map: TileMap, p: Position, goal: Position, k: nat) -> (d: nat)
    requires
        connected(map, p, goal, k),
    ensures
        d <= k,
        is_distance(map, p, goal, d),
    decreases k,
{
    if exists|k2: nat| k2 < k && #[trigger] connected(map, p, goal, k2) {
        let k2 = choose|k2: nat| k2 < k && #[trigger] connected(map, p, goal, k2);
        lemma_has_shortest(map, p, goal, k2)
    } else {
        k
    }
}

/// The step of a hostile is determined by where it stands.
pub proof fn lemma_steps_toward_unique(p: Position, q1: Position, q2: Position, map: TileMap, goal: Position)
    requires
        steps_toward(p, q1, map, goal),
        steps_toward(p, q2, map, goal),
    ensures
        q1 == q2,
{
    if has_distance(map, p, goal) {
        let d = choose|d: nat| #[trigger] is_distance(map, p, goal, d) && 0 < d < usize::MAX;
        let nb = walkable_neighbours(p, map);
        let j1 = choose|j: int|
            0 <= j < nb.len() && #[trigger] nb[j] == q1 && is_distance(map, q1, goal, (d - 1) as nat)
                && forall|j2: int| 0 <= j2 < j ==> !is_distance(map, nb[j2], goal, (d - 1) as nat);
        let j2 = choose|j: int|
            0 <= j < nb.len() && #[trigger] nb[j] == q2 && is_distance(map, q2, goal, (d - 1) as nat)
                && forall|j2: int| 0 <= j2 < j ==> !is_distance(map, nb[j2], goal, (d - 1) as nat);
        if j1 < j2 {
            assert(!is_distance(map, nb[j1], goal, (d - 1) as nat));
        } else if j2 < j1 {
            assert(!is_distance(map, nb[j2], goal, (d - 1) as nat));
        }
    }
}

/// A hostile on the goal's tile, or with no walk to the goal, stays where it is.
pub proof fn lemma_steps_toward_stays(p: Position, q: Position, map: TileMap, goal: Position)
    requires
        steps_toward(p, q, map, goal),
        p == goal || !has_path(map, p, goal),
    ensures
        q == p,
{
    if has_distance(map, p, goal) {
        let d = choose|d: nat| #[trigger] is_distance(map, p, goal, d) && 0 < d < usize::MAX;
        lemma_connected_ends(map, p, goal, d);
        if p == goal {
            lemma_connected_self(map, goal);
            assert(!connected(map, p, goal, 0));
        } else {
            assert(has_path(map, p, goal));
        }
    }
}

/// Two ticks of path following from the same tables toward the same goal end alike.
pub proof fn lemma_pathing_deterministic(
    before: Seq<TableView>,
    after1: Seq<TableView>,
    after2: Seq<TableView>,
    map: TileMap,
    goal: Option<Position>,
)
    requires
        after1.len() == before.len(),
        after2.len() == before.len(),
        forall|i: int| 0 <= i < before.len() ==> pathed_table(before[i], #[trigger] after1[i], map, goal),
        forall|i: int| 0 <= i < before.len() ==> pathed_table(before[i], #[trigger] after2[i], map, goal),
    ensures
        after1 == after2,
{
    assert forall|i: int| 0 <= i < before.len() implies #[trigger] after1[i] == after2[i] by {
        let b = before[i];
        let a1 = after1[i];
        let a2 = after2[i];
        assert(pathed_table(b, a1, map, goal) && pathed_table(b, a2, map, goal));
        if is_chaser(b.key) && goal.is_some() {
            assert forall|j: int| 0 <= j < a1.positions.len() implies a1.positions[j] == a2.positions[j] by {
                lemma_steps_toward_unique(b.positions[j], a1.positions[j], a2.positions[j], map, goal.unwrap());
            }
        }
        assert(a1.positions =~= a2.positions);
    }
    assert(after1 =~= after2);
}

/// At each walkable tile the entry is at most one more than that of each walkable
/// neighbour whose entry is reached.
pub open spec fn locally_tight(map: TileMap, dist: Seq<usize>) -> bool {
    forall|t: Position, c: Position|
        #![trigger adjacent(t, c)]
        map.walkable(t.x as int, t.y as int) && map.walkable(c.x as int, c.y as int) && adjacent(
            t,
            c,
        ) && dist[map.index_of(c.x as int, c.y as int)] < usize::MAX - 1 ==> dist[map.index_of(
            t.x as int,
            t.y as int,
        )] <= dist[map.index_of(c.x as int, c.y as int)] + 1
}

/// Each entry is at most the length of every walk from its tile to `goal`.
pub open spec fn complete_distances(map: TileMap, dist: Seq<usize>, goal: Position) -> bool {
    forall|t: Position, k: nat|
        #[trigger] connected(map, t, goal, k) && k < usize::MAX ==> dist[map.index_of(
            t.x as int,
            t.y as int,
        )] <= k
}

/// The entries are the lengths of shortest walks to `goal`.
#[verifier::opaque]
pub open spec fn exact_distances(map: TileMap, dist: Seq<usize>, goal: Position) -> bool {
    &&& sound_distances(map, dist, goal)
    &&& complete_distances(map, dist, goal)
    &&& locally_tight(map, dist)
}

/// The sum of the entries.
pub open spec fn total(s: Seq<usize>) -> int
    decreases s.len(),
{
    if s.len() == 0 {
        0
    } else {
        total(s.drop_last()) + s.last()
    }
}

proof fn lemma_total_update(s: Seq<usize>, i: int, v: usize)
    requires
        0 <= i < s.len(),
    ensures
        total(s.update(i, v)) == total(s) - s[i] + v,
    decreases s.len(),
{
    if i < s.len() - 1 {
        assert(s.update(i, v).drop_last() =~= s.drop_last().update(i, v));
        lemma_total_update(s.drop_last(), i, v);
    } else {
        assert(s.update(i, v).drop_last() =~= s.drop_last());
    }
}

proof fn lemma_total_nonneg(s: Seq<usize>)
    ensures
        total(s) >= 0,
    decreases s.len(),
{
    if s.len() > 0 {
        lemma_total_nonneg(s.drop_last());
    }
}

/// Dropping the first tile of a walk leaves a walk one step shorter.
proof fn lemma_connected_tail(map: TileMap, t: Position, goal: Position, k: nat) -> (c: Position)
    requires
        connected(map, t, goal, k),
        k > 0,
    ensures
        map.walkable(t.x as int, t.y as int),
        map.walkable(c.x as int, c.y as int),
        adjacent(t, c),
        connected(map, c, goal, (k - 1) as nat),
{
    let w = choose|w: Seq<Position>|
        #[trigger] is_walk(map, w) && w.len() == k + 1 && w[0] == t && w.last() == goal;
    let tail = w.subrange(1, w.len() as int);
    assert forall|i: int| 0 <= i < tail.len() implies map.walkable(
        #[trigger] tail[i].x as int,
        tail[i].y as int,
    ) by {
        assert(tail[i] == w[i + 1]);
    }
    assert forall|i: int| 0 <= i < tail.len() - 1 implies adjacent(#[trigger] tail[i], tail[i + 1]) by {
        assert(tail[i] == w[i + 1] && tail[i + 1] == w[i + 2]);
    }
    assert(w[0] == t && adjacent(w[0], w[1]));
    assert(map.walkable(w[0].x as int, w[0].y as int));
    assert(map.walkable(w[1].x as int, w[1].y as int));
    assert(is_walk(map, tail) && tail.len() == (k - 1) as nat + 1 && tail[0] == w[1] && tail.last() == goal);
    w[1]
}

/// The goal of a walk is walkable, and a walk of no step stays at the goal.
proof fn lemma_connected_ends(map: TileMap, t: Position, goal: Position, k: nat)
    requires
        connected(map, t, goal, k),
    ensures
        map.walkable(goal.x as int, goal.y as int),
        map.walkable(t.x as int, t.y as int),
        k == 0 ==> t == goal,
{
    let w = choose|w: Seq<Position>|
        #[trigger] is_walk(map, w) && w.len() == k + 1 && w[0] == t && w.last() == goal;
    assert(map.walkable(w[w.len() - 1].x as int, w[w.len() - 1].y as int));
    assert(map.walkable(w[0].x as int, w[0].y as int));
}

/// Locally tight entries with the goal at zero are at most every walk's length.
proof fn lemma_complete_at(map: TileMap, dist: Seq<usize>, goal: Position, t: Position, k: nat)
    requires
        locally_tight(map, dist),
        dist[map.index_of(goal.x as int, goal.y as int)] == 0,
        connected(map, t, goal, k),
        k < usize::MAX,
    ensures
        dist[map.index_of(t.x as int, t.y as int)] <= k,
    decreases k,
{
    if k == 0 {
        lemma_connected_ends(map, t, goal, k);
    } else {
        let c = lemma_connected_tail(map, t, goal, k);
        lemma_complete_at(map, dist, goal, c, (k - 1) as nat);
        assert(adjacent(t, c));
    }
}

/// A tile that is not walkable, or whose entry is unreached, has no positive distance
/// that fits, so its hostile stays.
proof fn lemma_unreached_stays(map: TileMap, dist: Seq<usize>, goal: Position, p: Position)
    requires
        dist.len() == map@.0.len(),
        exact_distances(map, dist, goal),
        !map.walkable(p.x as int, p.y as int) || dist[map.index_of(p.x as int, p.y as int)]
            == usize::MAX,
    ensures
        steps_toward(p, p, map, goal),
{
    reveal(exact_distances);
    if has_distance(map, p, goal) {
        let d = choose|d: nat| #[trigger] is_distance(map, p, goal, d) && 0 < d < usize::MAX;
        lemma_connected_ends(map, p, goal, d);
        assert(dist[map.index_of(p.x as int, p.y as int)] <= d);
    }
}

/// The first neighbour with the least entry, below the tile's own, is the first one
/// step nearer along a shortest walk.
proof fn lemma_step_is_shortest(
    map: TileMap,
    dist: Seq<usize>,
    goal: Position,
    p: Position,
    best: Position,
    best_d: usize,
    bj: int,
    nb: Seq<Position>,
)
    requires
        dist.len() == map@.0.len(),
        exact_distances(map, dist, goal),
        map.walkable(p.x as int, p.y as int),
        dist[map.index_of(p.x as int, p.y as int)] != usize::MAX,
        nb == walkable_neighbours(p, map),
        forall|i: int|
            0 <= i < nb.len() ==> adjacent(p, #[trigger] nb[i]) && map.walkable(
                nb[i].x as int,
                nb[i].y as int,
            ),
        forall|q: Position|
            adjacent(p, q) && map.walkable(q.x as int, q.y as int) ==> exists|j: int|
                0 <= j < nb.len() && #[trigger] nb[j] == q,
        best == p ==> best_d == dist[map.index_of(p.x as int, p.y as int)],
        best != p ==> 0 <= bj < nb.len() && nb[bj] == best && best_d == dist[map.index_of(
            best.x as int,
            best.y as int,
        )] && best_d < dist[map.index_of(p.x as int, p.y as int)] && forall|j: int|
            0 <= j < bj ==> best_d < dist[map.index_of(#[trigger] nb[j].x as int, nb[j].y as int)],
        forall|j: int|
            0 <= j < nb.len() ==> best_d <= dist[map.index_of(
                #[trigger] nb[j].x as int,
                nb[j].y as int,
            )],
    ensures
        steps_toward(p, best, map, goal),
{
    reveal(exact_distances);
    let start_d = dist[map.index_of(p.x as int, p.y as int)];
    if has_distance(map, p, goal) {
        let d = choose|d: nat| #[trigger] is_distance(map, p, goal, d) && 0 < d < usize::MAX;
        assert(start_d <= d);
        assert(connected(map, p, goal, start_d as nat));
        assert(start_d == d);
        let c = lemma_connected_tail(map, p, goal, d);
        assert(dist[map.index_of(c.x as int, c.y as int)] <= (d - 1) as nat);
        let j = choose|j: int| 0 <= j < nb.len() && #[trigger] nb[j] == c;
        assert(best_d <= dist[map.index_of(nb[j].x as int, nb[j].y as int)]);
        assert(best != p);
        assert(adjacent(p, nb[bj]));
        assert(adjacent(best, p));
        assert(start_d <= best_d + 1);
        assert(connected(map, best, goal, (d - 1) as nat));
        assert forall|k2: nat| k2 < (d - 1) as nat implies !#[trigger] connected(
            map,
            best,
            goal,
            k2,
        ) by {
            if connected(map, best, goal, k2) {
                lemma_connected_step(map, p, best, goal, k2);
                assert(connected(map, p, goal, k2 + 1));
            }
        }
        assert forall|j2: int| 0 <= j2 < bj implies !is_distance(
            map,
            nb[j2],
            goal,
            (d - 1) as nat,
        ) by {
            if is_distance(map, nb[j2], goal, (d - 1) as nat) {
                assert(connected(map, nb[j2], goal, (d - 1) as nat));
                assert(best_d < dist[map.index_of(nb[j2].x as int, nb[j2].y as int)]);
            }
        }
        assert(nb[bj] == best);
        assert(first_nearest(p, best, map, goal, d));
    } else if best != p {
        assert(adjacent(p, nb[bj]));
        assert(adjacent(best, p));
        assert(connected(map, best, goal, best_d as nat));
        lemma_connected_step(map, p, best, goal, best_d as nat);
        let ds = lemma_has_shortest(map, p, goal, (best_d + 1) as nat);
        if ds == 0 {
            assert(start_d <= 0);
        }
        assert(is_distance(map, p, goal, ds) && 0 < ds < usize::MAX);
        assert(has_distance(map, p, goal));
    }
}

/// One tile, if `keep`; none otherwise.
pub open spec fn tile_if(keep: bool, p: Position) -> Seq<Position> {
    if keep {
        seq![p]
    } else {
        Seq::empty()
    }
}

/// The walkable tiles next to `p`, each once, in the order left, right, up, down.
pub open spec fn walkable_neighbours(p: Position, map: TileMap) -> Seq<Position> {
    tile_if(
        p.x > 0 && map.walkable(p.x - 1, p.y as int),
        Position { x: (p.x - 1) as usize, y: p.y },
    ) + tile_if(
        p.x < usize::MAX && map.walkable(p.x + 1, p.y as int),
        Position { x: (p.x + 1) as usize, y: p.y },
    ) + tile_if(
        p.y > 0 && map.walkable(p.x as int, p.y - 1),
        Position { x: p.x, y: (p.y - 1) as usize },
    ) + tile_if(
        p.y < usize::MAX && map.walkable(p.x as int, p.y + 1),
        Position { x: p.x, y: (p.y + 1) as usize },
    )
}

/// Moves hostile entities toward the player.
pub struct EnemyAISystem;

impl EnemyAISystem {
    /// Appends the walkable tiles next to `current` to `list`, in the order left, right,
    /// up, down.
    pub fn add_valids_adjacent_squares(map: &TileMap, current: &Position, list: &mut Vec<Position>)
        ensures
            final(list)@ == old(list)@ + walkable_neighbours(*current, *map),
            final(list)@.subrange(0, old(list)@.len() as int) == old(list)@,
            final(list)@.len() <= old(list)@.len() + 4,
            forall|i: int|
                old(list)@.len() <= i < final(list)@.len() ==> adjacent(*current, #[trigger] final(list)@[i])
                    && map.walkable(final(list)@[i].x as int, final(list)@[i].y as int),
            forall|q: Position|
                adjacent(*current, q) && map.walkable(q.x as int, q.y as int) ==> exists|i: int|
                    old(list)@.len() <= i < final(list)@.len() && #[trigger] final(list)@[i] == q,
    {
        let ghost l0 = list@;
        let x = current.x;
        let y = current.y;
        if x > 0 && map.is_walkable(x - 1, y) {
            list.push(Position::new(x - 1, y));
        }
        let ghost l1 = list@;
        if x < usize::MAX && map.is_walkable(x + 1, y) {
            list.push(Position::new(x + 1, y));
        }
        let ghost l2 = list@;
        if y > 0 && map.is_walkable(x, y - 1) {
            list.push(Position::new(x, y - 1));
        }
        let ghost l3 = list@;
        if y < usize::MAX && map.is_walkable(x, y + 1) {
            list.push(Position::new(x, y + 1));
        }
        proof {
            map.lemma_size_bounds();
            assert(list@ =~= l0 + walkable_neighbours(*current, *map));
            assert(list@.subrange(0, l0.len() as int) =~= l0);
            assert forall|q: Position|
                adjacent(*current, q) && map.walkable(q.x as int, q.y as int) implies exists|i: int|
                    l0.len() <= i < list@.len() && #[trigger] list@[i] == q by {
                if q.x + 1 == x {
                    assert(list@[l0.len() as int] == q);
                } else if q.x == x + 1 {
                    assert(list@[l1.len() as int] == q);
                } else if q.y + 1 == y {
                    assert(list@[l2.len() as int] == q);
                } else {
                    assert(list@[l3.len() as int] == q);
                }
            }
        }
    }

    /// The tile index of a walkable position.
    fn tile_index(map: &TileMap, p: Position) -> (r: usize)
        requires
            map.walkable(p.x as int, p.y as int),
        ensures
            r == map.index_of(p.x as int, p.y as int),
            r < map@.0.len(),
    {
        proof {
            map.lemma_in_bounds_index(p.x as int, p.y as int);
            map.lemma_size_bounds();
        }
        map.xy_idx(p.x, p.y)
    }

    /// The length of a shortest walk over walkable tiles from each tile to `goal`, indexed
    /// like the tiles; `usize::MAX` where no walk reaches. Starting from zero at the goal,
    /// passes over the walkable tiles lower each entry to one more than its lowest
    /// neighbour, until a pass changes nothing.
    fn distances(map: &TileMap, goal: Position) -> (dist: Vec<usize>)
        ensures
            dist@.len() == map@.0.len(),
            exact_distances(*map, dist@, goal),
    {
        let n = map.get_tiles().len();
        let mut dist: Vec<usize> = vec![usize::MAX; n];
        if !map.is_walkable(goal.x, goal.y) {
            proof {
                assert forall|p: Position|
                    map.walkable(p.x as int, p.y as int) && dist@[map.index_of(
                        p.x as int,
                        p.y as int,
                    )] != usize::MAX implies #[trigger] connected(
                    *map,
                    p,
                    goal,
                    dist@[map.index_of(p.x as int, p.y as int)] as nat,
                ) by {
                    map.lemma_in_bounds_index(p.x as int, p.y as int);
                }
                assert forall|t: Position, k: nat|
                    #[trigger] connected(*map, t, goal, k) && k < usize::MAX implies dist@[map.index_of(
                        t.x as int,
                        t.y as int,
                    )] <= k by {
                    lemma_connected_ends(*map, t, goal, k);
                }
                assert forall|t: Position, c: Position|
                    #![trigger adjacent(t, c)]
                    map.walkable(t.x as int, t.y as int) && map.walkable(c.x as int, c.y as int)
                        && adjacent(t, c) && dist@[map.index_of(c.x as int, c.y as int)] < usize::MAX
                        - 1 implies dist@[map.index_of(t.x as int, t.y as int)] <= dist@[map.index_of(
                    c.x as int,
                    c.y as int,
                )] + 1 by {
                    map.lemma_in_bounds_index(c.x as int, c.y as int);
                }
                reveal(exact_distances);
            }
            return dist;
        }
        let g = Self::tile_index(map, goal);
        dist.set(g, 0);
        proof {
            assert forall|p: Position|
                map.walkable(p.x as int, p.y as int) && dist@[map.index_of(p.x as int, p.y as int)]
                    != usize::MAX implies #[trigger] connected(
                *map,
                p,
                goal,
                dist@[map.index_of(p.x as int, p.y as int)] as nat,
            ) by {
                map.lemma_in_bounds_index(p.x as int, p.y as int);
                if map.index_of(p.x as int, p.y as int) == g {
                    map.lemma_index_injective(p.x as int, p.y as int, goal.x as int, goal.y as int);
                    lemma_connected_self(*map, goal);
                }
            }
            lemma_total_nonneg(dist@);
        }
        let tiles = map.walkable_positions();
        let mut done = false;
        while !done
            invariant
                n == map@.0.len(),
                g == map.index_of(goal.x as int, goal.y as int),
                g < n,
                sound_distances(*map, dist@, goal),
                dist@[g as int] == 0,
                total(dist@) >= 0,
                forall|i: int|
                    0 <= i < tiles@.len() ==> map.walkable(
                        #[trigger] tiles@[i].x as int,
                        tiles@[i].y as int,
                    ),
                forall|x: int, y: int|
                    #![trigger map.walkable(x, y)]
                    map.walkable(x, y) ==> tiles@.contains(Position { x: x as usize, y: y as usize }),
                done ==> locally_tight(*map, dist@),
            decreases (if done {
                0
            } else {
                total(dist@) + 1
            }),
        {
            let ghost start = dist@;
            let mut changed = false;
            let mut i: usize = 0;
            while i < tiles.len()
                invariant
                    n == map@.0.len(),
                    g == map.index_of(goal.x as int, goal.y as int),
                    g < n,
                g < n,
                    sound_distances(*map, dist@, goal),
                    dist@[g as int] == 0,
                    total(dist@) >= 0,
                    i <= tiles@.len(),
                    forall|i: int|
                        0 <= i < tiles@.len() ==> map.walkable(
                            #[trigger] tiles@[i].x as int,
                            tiles@[i].y as int,
                        ),
                    changed ==> total(dist@) < total(start),
                    !changed ==> dist@ == start,
                    !changed ==> forall|i2: int, c: Position|
                        #![trigger adjacent(tiles@[i2], c)]
                        0 <= i2 < i && map.walkable(c.x as int, c.y as int) && adjacent(tiles@[i2], c)
                            && dist@[map.index_of(c.x as int, c.y as int)] < usize::MAX - 1
                            ==> dist@[map.index_of(tiles@[i2].x as int, tiles@[i2].y as int)]
                            <= dist@[map.index_of(c.x as int, c.y as int)] + 1,
                decreases tiles@.len() - i,
            {
                let t = tiles[i];
                let it = Self::tile_index(map, t);
                let mut next: Vec<Position> = Vec::new();
                Self::add_valids_adjacent_squares(map, &t, &mut next);
                let mut k: usize = 0;
                while k < next.len()
                    invariant
                        n == map@.0.len(),
                        g == map.index_of(goal.x as int, goal.y as int),
                        g < n,
                    g < n,
                g < n,
                        it == map.index_of(t.x as int, t.y as int),
                        it < n,
                        map.walkable(t.x as int, t.y as int),
                        sound_distances(*map, dist@, goal),
                        dist@[g as int] == 0,
                        total(dist@) >= 0,
                        forall|j: int|
                            0 <= j < next@.len() ==> adjacent(t, #[trigger] next@[j]) && map.walkable(
                                next@[j].x as int,
                                next@[j].y as int,
                            ),
                        forall|q: Position|
                            adjacent(t, q) && map.walkable(q.x as int, q.y as int) ==> exists|j: int|
                                0 <= j < next@.len() && #[trigger] next@[j] == q,
                        t == tiles@[i as int],
                        i < tiles@.len(),
                        !changed ==> forall|i2: int, c: Position|
                            #![trigger adjacent(tiles@[i2], c)]
                            0 <= i2 < i && map.walkable(c.x as int, c.y as int) && adjacent(
                                tiles@[i2],
                                c,
                            ) && dist@[map.index_of(c.x as int, c.y as int)] < usize::MAX - 1
                                ==> dist@[map.index_of(tiles@[i2].x as int, tiles@[i2].y as int)]
                                <= dist@[map.index_of(c.x as int, c.y as int)] + 1,
                        changed ==> total(dist@) < total(start),
                        !changed ==> dist@ == start,
                        !changed ==> forall|j: int|
                            0 <= j < k && dist@[map.index_of(
                                #[trigger] next@[j].x as int,
                                next@[j].y as int,
                            )] < usize::MAX - 1 ==> dist@[it as int] <= dist@[map.index_of(
                                next@[j].x as int,
                                next@[j].y as int,
                            )] + 1,
                    decreases next@.len() - k,
                {
                    let c = next[k];
                    let ic = Self::tile_index(map, c);
                    let dc = dist[ic];
                    if dc < usize::MAX - 1 && dc + 1 < dist[it] {
                        let ghost before = dist@;
                        proof {
                            assert(connected(*map, c, goal, dc as nat));
                            lemma_connected_step(*map, t, c, goal, dc as nat);
                            lemma_total_update(before, it as int, (dc + 1) as usize);
                        }
                        dist.set(it, dc + 1);
                        changed = true;
                        proof {
                            assert(it != g);
                            assert(dist@[g as int] == before[g as int]);
                            lemma_total_nonneg(dist@);
                            assert forall|r: Position|
                                map.walkable(r.x as int, r.y as int) && dist@[map.index_of(
                                    r.x as int,
                                    r.y as int,
                                )] != usize::MAX implies #[trigger] connected(
                                *map,
                                r,
                                goal,
                                dist@[map.index_of(r.x as int, r.y as int)] as nat,
                            ) by {
                                map.lemma_in_bounds_index(r.x as int, r.y as int);
                                if map.index_of(r.x as int, r.y as int) == it {
                                    map.lemma_index_injective(
                                        r.x as int,
                                        r.y as int,
                                        t.x as int,
                                        t.y as int,
                                    );
                                } else {
                                    assert(dist@[map.index_of(r.x as int, r.y as int)]
                                        == before[map.index_of(r.x as int, r.y as int)]);
                                    assert(connected(
                                        *map,
                                        r,
                                        goal,
                                        before[map.index_of(r.x as int, r.y as int)] as nat,
                                    ));
                                }
                            }
                        }
                    }
                    k = k + 1;
                }
                proof {
                    if !changed {
                        assert forall|i2: int, c: Position|
                            #![trigger adjacent(tiles@[i2], c)]
                            0 <= i2 < i + 1 && map.walkable(c.x as int, c.y as int) && adjacent(
                                tiles@[i2],
                                c,
                            ) && dist@[map.index_of(c.x as int, c.y as int)] < usize::MAX - 1
                                implies dist@[map.index_of(tiles@[i2].x as int, tiles@[i2].y as int)]
                            <= dist@[map.index_of(c.x as int, c.y as int)] + 1 by {
                            if i2 == i {
                                assert(tiles@[i2] == t);
                                assert(adjacent(t, c));
                                let j = choose|j: int|
                                    0 <= j < next@.len() && #[trigger] next@[j] == c;
                                assert(next@[j] == c);
                                assert(dist@[map.index_of(next@[j].x as int, next@[j].y as int)]
                                    < usize::MAX - 1 ==> dist@[it as int] <= dist@[map.index_of(
                                    next@[j].x as int,
                                    next@[j].y as int,
                                )] + 1);
                            }
                        }
                    }
                }
                i = i + 1;
            }
            if !changed {
                done = true;
                proof {
                    assert forall|t: Position, c: Position|
                        #![trigger adjacent(t, c)]
                        map.walkable(t.x as int, t.y as int) && map.walkable(c.x as int, c.y as int)
                            && adjacent(t, c) && dist@[map.index_of(c.x as int, c.y as int)]
                            < usize::MAX - 1 implies dist@[map.index_of(t.x as int, t.y as int)]
                        <= dist@[map.index_of(c.x as int, c.y as int)] + 1 by {
                        assert(map.walkable(t.x as int, t.y as int));
                        assert(tiles@.contains(Position { x: t.x as usize, y: t.y as usize }));
                        let i2 = choose|i2: int| 0 <= i2 < tiles@.len() && tiles@[i2] == t;
                        assert(adjacent(tiles@[i2], c));
                    }
                }
            }
        }
        proof {
            assert forall|t: Position, k: nat|
                #[trigger] connected(*map, t, goal, k) && k < usize::MAX implies dist@[map.index_of(
                    t.x as int,
                    t.y as int,
                )] <= k by {
                lemma_complete_at(*map, dist@, goal, t, k);
            }
            reveal(exact_distances);
        }
        dist
    }

    /// The tile that a row at `p` moves to: the first of its walkable neighbours, in
    /// the order left, right, up, down, that is nearer to the goal than `p` and nearest
    /// among them; `p` itself when none is nearer.
    fn next_step(map: &TileMap, dist: &Vec<usize>, p: Position, Ghost(goal): Ghost<Position>) -> (q: Position)
        requires
            dist@.len() == map@.0.len(),
            exact_distances(*map, dist@, goal),
        ensures
            steps_toward(p, q, *map, goal),
    {
        if !map.is_walkable(p.x, p.y) {
            proof {
                lemma_unreached_stays(*map, dist@, goal, p);
            }
            return p;
        }
        let start_d = dist[Self::tile_index(map, p)];
        if start_d == usize::MAX {
            proof {
                lemma_unreached_stays(*map, dist@, goal, p);
            }
            return p;
        }
        let mut next: Vec<Position> = Vec::new();
        Self::add_valids_adjacent_squares(map, &p, &mut next);
        assert(next@ =~= walkable_neighbours(p, *map));
        let mut best = p;
        let mut best_d = start_d;
        let ghost mut bj: int = 0;
        let mut k: usize = 0;
        while k < next.len()
            invariant
                dist@.len() == map@.0.len(),
                start_d == dist@[map.index_of(p.x as int, p.y as int)],
                k <= next@.len(),
                best == p ==> best_d == start_d,
                best != p ==> 0 <= bj < k && next@[bj] == best && best_d == dist@[map.index_of(
                    best.x as int,
                    best.y as int,
                )] && best_d < start_d && forall|j: int|
                    0 <= j < bj ==> best_d < dist@[map.index_of(
                        #[trigger] next@[j].x as int,
                        next@[j].y as int,
                    )],
                forall|j: int|
                    0 <= j < k ==> best_d <= dist@[map.index_of(
                        #[trigger] next@[j].x as int,
                        next@[j].y as int,
                    )],
                forall|i: int|
                    0 <= i < next@.len() ==> adjacent(p, #[trigger] next@[i]) && map.walkable(
                        next@[i].x as int,
                        next@[i].y as int,
                    ),
            decreases next@.len() - k,
        {
            let q = next[k];
            let dq = dist[Self::tile_index(map, q)];
            if dq < best_d {
                best = q;
                best_d = dq;
                proof {
                    bj = k as int;
                }
            }
            k = k + 1;
        }
        proof {
            lemma_step_is_shortest(*map, dist@, goal, p, best, best_d, bj, next@);
        }
        best
    }

    fn path_rows(t: &mut Table, map: &TileMap, dist: &Vec<usize>, Ghost(goal): Ghost<Position>)
        requires
            old(t)@.wf(),
            is_chaser(old(t)@.key),
            dist@.len() == map@.0.len(),
            exact_distances(*map, dist@, goal),
        ensures
            final(t)@.wf(),
            pathed_table(old(t)@, final(t)@, *map, Some(goal)),
    {
        let ghost o = t@;
        let n = t.positions.len();
        let mut j: usize = 0;
        while j < n
            invariant
                o.wf(),
                n == o.positions.len(),
                j <= n,
                dist@.len() == map@.0.len(),
                exact_distances(*map, dist@, goal),
                t@ == (TableView { positions: t@.positions, ..o }),
                t@.positions.len() == n,
                forall|k: int|
                    0 <= k < j ==> steps_toward(
                        o.positions[k],
                        #[trigger] t@.positions[k],
                        *map,
                        goal,
                    ),
                forall|k: int| j <= k < n ==> #[trigger] t@.positions[k] == o.positions[k],
            decreases n - j,
        {
            let p = t.positions[j];
            let q = Self::next_step(map, dist, p, Ghost(goal));
            t.positions[j] = q;
            j = j + 1;
        }
    }

    /// Moves every hostile, positioned row one step along a shortest walk over walkable
    /// tiles toward the player (the first row of the first controllable, positioned
    /// table). The lengths of shortest walks are computed afresh each tick; among the
    /// neighbours one step nearer, the first of left, right, up, down is taken. A row
    /// with no walk to the player, or already on its tile, does not move. Only positions
    /// of hostile rows change; without a player nothing changes.
    pub fn run(world: &mut World)
        requires
            old(world).wf(),
        ensures
            final(world).wf(),
            final(world).next_entity == old(world).next_entity,
            final(world).map == old(world).map,
            final(world).turn_state == old(world).turn_state,
            final(world).tables_view().len() == old(world).tables_view().len(),
            forall|i: int|
                0 <= i < old(world).tables_view().len() ==> pathed_table(
                    old(world).tables_view()[i],
                    #[trigger] final(world).tables_view()[i],
                    old(world).map,
                    player_position(old(world).tables_view()),
                ),
    {
        let ghost o = world.tables_view();
        let mut pi: usize = 0;
        while pi < world.tables.len() && !(world.tables[pi].key.is_controllable
            && world.tables[pi].key.has_position)
            invariant
                o == world.tables_view(),
                pi <= o.len(),
                first_controlled(o, pi as int) == first_controlled(o, 0),
            decreases o.len() - pi,
        {
            assert(o[pi as int] == world.tables@[pi as int]@);
            pi = pi + 1;
        }
        if pi == world.tables.len() {
            assert forall|i: int| 0 <= i < o.len() implies pathed_table(
                o[i],
                #[trigger] world.tables_view()[i],
                world.map,
                player_position(o),
            ) by {
                assert(o[i] == (TableView { positions: o[i].positions, ..o[i] }));
            }
            return ;
        }
        assert(o[pi as int] == world.tables@[pi as int]@);
        assert(first_controlled(o, 0) == pi);
        if world.tables[pi].len() == 0 {
            assert forall|i: int| 0 <= i < o.len() implies pathed_table(
                o[i],
                #[trigger] world.tables_view()[i],
                world.map,
                player_position(o),
            ) by {
                assert(o[i] == (TableView { positions: o[i].positions, ..o[i] }));
            }
            return ;
        }
        assert(o[pi as int].wf());
        let goal = world.tables[pi].positions[0];
        assert(player_position(o) == Some(goal));
        let dist = Self::distances(&world.map, goal);
        let mut ti: usize = 0;
        while ti < world.tables.len()
            invariant
                world.next_entity == old(world).next_entity,
                world.map == old(world).map,
                world.turn_state == old(world).turn_state,
                o == old(world).tables_view(),
                player_position(o) == Some(goal),
                tables_wf(o, world.next_entity),
                dist@.len() == world.map@.0.len(),
                exact_distances(world.map, dist@, goal),
                world.tables@.len() == o.len(),
                ti <= o.len(),
                forall|j: int|
                    0 <= j < ti ==> pathed_table(
                        o[j],
                        #[trigger] world.tables_view()[j],
                        world.map,
                        Some(goal),
                    ),
                forall|j: int| ti <= j < o.len() ==> #[trigger] world.tables_view()[j] == o[j],
            decreases o.len() - ti,
        {
            let ghost before = world.tables_view();
            assert(before[ti as int] == world.tables@[ti as int]@);
            assert(o[ti as int].wf());
            let k = world.tables[ti].key;
            if k.is_hostile && k.has_position {
                path_rows_at(world, ti, &dist, Ghost(goal));
            } else {
                assert(o[ti as int] == (TableView { positions: o[ti as int].positions, ..o[ti as int] }));
            }
            proof {
                let after = world.tables_view();
                assert(after.len() == world.tables@.len());
                assert forall|j: int| 0 <= j < after.len() && j != ti implies after[j]
                    == before[j] by {}
            }
            ti = ti + 1;
        }
        proof {
            let f = world.tables_view();
            assert forall|i: int| 0 <= i < f.len() implies #[trigger] f[i].wf() by {
                assert(o[i].wf());
                assert(pathed_table(o[i], f[i], world.map, Some(goal)));
            }
            assert forall|i: int, r: int|
                0 <= i < f.len() && 0 <= r < f[i].entities.len() implies f[i].entities[r]
                < world.next_entity by {
                assert(pathed_table(o[i], f[i], world.map, Some(goal)));
                assert(f[i].entities == o[i].entities);
            }
            assert forall|i: int, j: int|
                0 <= i < f.len() && 0 <= j < f.len() && i != j implies f[i].key != f[j].key by {
                assert(pathed_table(o[i], f[i], world.map, Some(goal)));
                assert(pathed_table(o[j], f[j], world.map, Some(goal)));
            }
        }
    }

    /// The number of single steps between two positions along the axes.
    pub fn heuristic(position: &Position, destination: &Position) -> (r: usize)
        requires
            manhattan(*position, *destination) <= usize::MAX,
        ensures
            r == manhattan(*position, *destination),
    {
        let dx = if position.x >= destination.x {
            position.x - destination.x
        } else {
            destination.x - position.x
        };
        let dy = if position.y >= destination.y {
            position.y - destination.y
        } else {
            destination.y - position.y
        };
        dx + dy
    }

    fn greedy(p: Position, goal: Position) -> (r: Position)
        ensures
            r == greedy_step(p, goal),
    {
        let dx = if p.x >= goal.x {
            p.x - goal.x
        } else {
            goal.x - p.x
        };
        let dy = if p.y >= goal.y {
            p.y - goal.y
        } else {
            goal.y - p.y
        };
        if dx >= dy {
            let x = if p.x < goal.x {
                p.x + 1
            } else if p.x > goal.x {
                p.x - 1
            } else {
                p.x
            };
            Position::new(x, p.y)
        } else {
            let y = if p.y < goal.y {
                p.y + 1
            } else if p.y > goal.y {
                p.y - 1
            } else {
                p.y
            };
            Position::new(p.x, y)
        }
    }

    fn chase_rows(t: &mut Table, goal: Position, map: &TileMap)
        requires
            old(t)@.wf(),
            is_chaser(old(t)@.key),
        ensures
            final(t)@ == chase_table(old(t)@, goal, *map),
    {
        let ghost o = t@;
        let n = t.positions.len();
        let mut j: usize = 0;
        assert(t@.positions =~= o.positions.subrange(0, 0).map_values(
            |p: Position| chased(p, goal, *map),
        ) + o.positions.subrange(0, n as int));
        while j < n
            invariant
                n == o.positions.len(),
                j <= n,
                t@ == (TableView {
                    positions: o.positions.subrange(0, j as int).map_values(
                        |p: Position| chased(p, goal, *map),
                    ) + o.positions.subrange(j as int, n as int),
                    ..o
                }),
            decreases n - j,
        {
            let p = t.positions[j];
            let q = Self::greedy(p, goal);
            if map.is_walkable(q.x, q.y) {
                t.positions[j] = q;
            }
            j = j + 1;
            assert(t@.positions =~= o.positions.subrange(0, j as int).map_values(
                |p: Position| chased(p, goal, *map),
            ) + o.positions.subrange(j as int, n as int));
        }
        assert(t@.positions =~= o.positions.map_values(|p: Position| chased(p, goal, *map)));
    }

    /// The alternate, greedy chase: moves every hostile, positioned row one tile toward
    /// the player (the first row of the first controllable, positioned table), along the
    /// axis with the larger gap and the horizontal one on a tie, where that tile is
    /// walkable; a row whose step is not walkable stays. Without a player nothing changes.
    pub fn run2(world: &mut World)
        requires
            old(world).wf(),
        ensures
            final(world).wf(),
            final(world).next_entity == old(world).next_entity,
            final(world).map == old(world).map,
            final(world).turn_state == old(world).turn_state,
            final(world).tables_view() == chase_outcome(old(world).tables_view(), old(world).map),
    {
        let ghost o = world.tables_view();
        let mut pi: usize = 0;
        while pi < world.tables.len() && !(world.tables[pi].key.is_controllable
            && world.tables[pi].key.has_position)
            invariant
                o == world.tables_view(),
                pi <= o.len(),
                first_controlled(o, pi as int) == first_controlled(o, 0),
            decreases o.len() - pi,
        {
            assert(o[pi as int] == world.tables@[pi as int]@);
            pi = pi + 1;
        }
        if pi == world.tables.len() {
            return ;
        }
        assert(o[pi as int] == world.tables@[pi as int]@);
        if world.tables[pi].len() == 0 {
            return ;
        }
        assert(o[pi as int].wf());
        let goal = world.tables[pi].positions[0];
        let mut ti: usize = 0;
        while ti < world.tables.len()
            invariant
                world.next_entity == old(world).next_entity,
                world.map == old(world).map,
                world.turn_state == old(world).turn_state,
                o == old(world).tables_view(),
                tables_wf(o, world.next_entity),
                world.tables@.len() == o.len(),
                ti <= o.len(),
                forall|j: int|
                    0 <= j < ti ==> world.tables_view()[j] == chase_table(o[j], goal, world.map),
                forall|j: int| ti <= j < o.len() ==> world.tables_view()[j] == o[j],
            decreases o.len() - ti,
        {
            let ghost before = world.tables_view();
            assert(before[ti as int] == world.tables@[ti as int]@);
            assert(o[ti as int].wf());
            let k = world.tables[ti].key;
            if k.is_hostile && k.has_position {
                chase_rows_at(world, ti, goal);
            }
            proof {
                let after = world.tables_view();
                assert(after.len() == world.tables@.len());
                assert forall|j: int| 0 <= j < after.len() && j != ti implies after[j]
                    == before[j] by {}
            }
            ti = ti + 1;
        }
        proof {
            let f = world.tables_view();
            assert(f =~= chase_outcome(o, world.map));
            assert forall|i: int| 0 <= i < f.len() implies #[trigger] f[i].wf() by {
                assert(o[i].wf());
            }
            assert forall|i: int, r: int|
                0 <= i < f.len() && 0 <= r < f[i].entities.len() implies f[i].entities[r]
                < world.next_entity by {
                assert(f[i].entities == o[i].entities);
            }
        }
    }
}

/// Moves the chasing rows of table `ti` of the world along the distances `dist`.
fn path_rows_at(world: &mut World, ti: usize, dist: &Vec<usize>, Ghost(goal): Ghost<Position>)
    requires
        ti < old(world).tables@.len(),
        old(world).tables@[ti as int]@.wf(),
        is_chaser(old(world).tables@[ti as int]@.key),
        dist@.len() == old(world).map@.0.len(),
        exact_distances(old(world).map, dist@, goal),
    ensures
        final(world).tables_view().len() == old(world).tables_view().len(),
        forall|j: int|
            0 <= j < old(world).tables_view().len() && j != ti ==> final(world).tables_view()[j]
                == old(world).tables_view()[j],
        pathed_table(
            old(world).tables_view()[ti as int],
            final(world).tables_view()[ti as int],
            old(world).map,
            Some(goal),
        ),
        final(world).tables_view()[ti as int].wf(),
        final(world).next_entity == old(world).next_entity,
        final(world).map == old(world).map,
        final(world).turn_state == old(world).turn_state,
{
    let World { tables, map, .. } = world;
    EnemyAISystem::path_rows(&mut tables[ti], map, dist, Ghost(goal));
}

/// Moves the chasing rows of table `ti` of the world toward `goal`.
fn chase_rows_at(world: &mut World, ti: usize, goal: Position)
    requires
        ti < old(world).tables@.len(),
        old(world).tables@[ti as int]@.wf(),
        is_chaser(old(world).tables@[ti as int]@.key),
    ensures
        final(world).tables_view() == old(world).tables_view().update(
            ti as int,
            chase_table(old(world).tables_view()[ti as int], goal, old(world).map),
        ),
        final(world).next_entity == old(world).next_entity,
        final(world).map == old(world).map,
        final(world).turn_state == old(world).turn_state,
{
    let ghost o = world.tables_view();
    let World { tables, map, .. } = world;
    EnemyAISystem::chase_rows(&mut tables[ti], goal, map);
    assert(world.tables_view() =~= o.update(ti as int, chase_table(o[ti as int], goal, world.map)));
}

} // verus!
