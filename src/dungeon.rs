use vstd::prelude::*;

use crate::map::{TileMap, FLOOR};
use crate::random::{chance, random_below};

verus! {

/// An axis-aligned rectangle of tiles.
#[derive(PartialEq, Eq, Structural, Clone, Copy, Debug)]
pub struct Rect {
    pub x: usize,
    pub y: usize,
    pub width: usize,
    pub height: usize,
}

/// The least width a split leaves on each side.
pub const MINIMUM_WIDTH: usize = 5;

/// The least height a split leaves on each side.
pub const MINIMUM_HEIGHT: usize = 5;

impl Rect {
    /// Whether the rectangle lies within `outer`.
    pub open spec fn within(self, outer: Rect) -> bool {
        &&& outer.x <= self.x
        &&& self.x + self.width <= outer.x + outer.width
        &&& outer.y <= self.y
        &&& self.y + self.height <= outer.y + outer.height
    }

    /// Whether two rectangles touch or overlap, borders included.
    pub open spec fn intersects_spec(self, other: Rect) -> bool {
        &&& self.x <= other.x + other.width
        &&& self.x + self.width >= other.x
        &&& self.y <= other.y + other.height
        &&& self.y + self.height >= other.y
    }

    pub fn new(x: usize, y: usize, width: usize, height: usize) -> (r: Self)
        ensures
            r == (Rect { x, y, width, height }),
    {
        Rect { x, y, width, height }
    }

    pub fn center(&self) -> (r: (usize, usize))
        requires
            self.x + self.width <= usize::MAX,
            self.y + self.height <= usize::MAX,
        ensures
            r.0 == self.x + self.width / 2,
            r.1 == self.y + self.height / 2,
    {
        (self.x + self.width / 2, self.y + self.height / 2)
    }

    pub fn intersects(&self, other: &Self) -> (r: bool)
        requires
            self.x + self.width <= usize::MAX,
            self.y + self.height <= usize::MAX,
            other.x + other.width <= usize::MAX,
            other.y + other.height <= usize::MAX,
        ensures
            r == self.intersects_spec(*other),
    {
        self.x <= other.x + other.width && self.x + self.width >= other.x && self.y <= other.y
            + other.height && self.y + self.height >= other.y
    }
}

/// A node of a binary space partition of the map; a leaf may hold a carved room.
#[derive(Debug)]
pub struct BSPNode {
    pub rect: Rect,
    pub left: Option<Box<BSPNode>>,
    pub right: Option<Box<BSPNode>>,
    pub room: Option<Rect>,
}

/// Whether `left` and `right` cut `outer` in two along one axis, at a line that leaves
/// each at least the minimum size along that axis.
pub open spec fn halves(outer: Rect, left: Rect, right: Rect) -> bool {
    ||| {
        &&& left == Rect { width: left.width, ..outer }
        &&& right == Rect { x: (outer.x + left.width) as usize, width: (outer.width - left.width) as usize, ..outer }
        &&& left.width >= MINIMUM_WIDTH
        &&& right.width >= MINIMUM_WIDTH
    }
    ||| {
        &&& left == Rect { height: left.height, ..outer }
        &&& right == Rect { y: (outer.y + left.height) as usize, height: (outer.height - left.height) as usize, ..outer }
        &&& left.height >= MINIMUM_HEIGHT
        &&& right.height >= MINIMUM_HEIGHT
    }
}

/// Whether `after` is `before` with some tiles turned to floor and no other change.
pub open spec fn floored_from(before: Seq<char>, after: Seq<char>) -> bool {
    &&& after.len() == before.len()
    &&& forall|i: int| 0 <= i < after.len() ==> #[trigger] after[i] == before[i] || after[i] == FLOOR
}

/// Turns the tile at `(x, y)` to floor, if it lies on the grid.
fn floor_tile(map: &mut TileMap, x: usize, y: usize, Ghost(origin): Ghost<Seq<char>>)
    requires
        floored_from(origin, old(map)@.0),
    ensures
        floored_from(origin, final(map)@.0),
        final(map).width() == old(map).width(),
        final(map)@.0.len() == old(map)@.0.len(),
{
    let ghost before = map@.0;
    proof {
        if map.in_bounds(x as int, y as int) {
            map.lemma_in_bounds_index(x as int, y as int);
        }
    }
    map.set_tile(x, y, FLOOR);
    assert forall|i: int| 0 <= i < map@.0.len() implies #[trigger] map@.0[i] == origin[i]
        || map@.0[i] == FLOOR by {
        assert(before[i] == origin[i] || before[i] == FLOOR);
    }
}

/// A rectangle shrunk by one tile on each side.
pub open spec fn inner(r: Rect) -> Rect {
    Rect { x: (r.x + 1) as usize, y: (r.y + 1) as usize, width: (r.width - 2) as usize, height: (r.height - 2) as usize }
}

/// The number of levels below the node: zero for a leaf.
pub open spec fn tree_height(n: BSPNode) -> nat
    decreases n,
{
    let l = match n.left {
        Some(c) => 1 + tree_height(*c),
        None => 0,
    };
    let r = match n.right {
        Some(c) => 1 + tree_height(*c),
        None => 0,
    };
    if l >= r {
        l as nat
    } else {
        r as nat
    }
}

/// A leaf without a room.
pub open spec fn bare_leaf(n: BSPNode) -> bool {
    n.left.is_none() && n.right.is_none() && n.room.is_none()
}

/// The rooms of a tree, in pre-order: the node's own, then the left subtree's, then the
/// right subtree's.
pub open spec fn rooms_of(n: BSPNode) -> Seq<Rect>
    decreases n,
{
    own_room(n) + subtree_rooms(n.left) + subtree_rooms(n.right)
}

/// The node's own room, if it has one.
pub open spec fn own_room(n: BSPNode) -> Seq<Rect> {
    match n.room {
        Some(r) => seq![r],
        None => Seq::empty(),
    }
}

/// The rooms of an optional subtree, in pre-order.
pub open spec fn subtree_rooms(c: Option<Box<BSPNode>>) -> Seq<Rect>
    decreases c,
{
    match c {
        Some(n) => rooms_of(*n),
        None => Seq::empty(),
    }
}

impl BSPNode {
    /// Children and the room lie within the node's rectangle, all the way down.
    pub open spec fn wf(self) -> bool
        decreases self,
    {
        &&& self.rect.x + self.rect.width <= usize::MAX
        &&& self.rect.y + self.rect.height <= usize::MAX
        &&& match self.room {
            Some(r) => r.within(self.rect),
            None => true,
        }
        &&& match self.left {
            Some(n) => n.rect.within(self.rect) && n.wf(),
            None => true,
        }
        &&& match self.right {
            Some(n) => n.rect.within(self.rect) && n.wf(),
            None => true,
        }
    }

    pub fn root(map: &TileMap) -> (r: Self)
        ensures
            r.wf(),
            r.rect == (Rect { x: 0, y: 0, width: map.width() as usize, height: map.height() as usize }),
            r.left.is_none() && r.right.is_none() && r.room.is_none(),
    {
        proof {
            map.lemma_size_bounds();
        }
        BSPNode { rect: Rect::new(0, 0, map.columns(), map.rows()), left: None, right: None, room: None }
    }

    fn new(rect: Rect) -> (r: Self)
        requires
            rect.x + rect.width <= usize::MAX,
            rect.y + rect.height <= usize::MAX,
        ensures
            r.wf(),
            r.rect == rect,
            r.left.is_none() && r.right.is_none() && r.room.is_none(),
    {
        BSPNode { rect, left: None, right: None, room: None }
    }

    pub fn is_leaf(&self) -> (r: bool)
        ensures
            r == (self.left.is_none() && self.right.is_none()),
    {
        self.left.is_none() && self.right.is_none()
    }

    /// Splits a leaf in two at a random line, across its longer side (either way when it
    /// is square), leaving at least the minimum size on both sides. Returns whether it split.
    fn split(&mut self) -> (r: bool)
        requires
            old(self).wf(),
        ensures
            final(self).wf(),
            final(self).rect == old(self).rect,
            final(self).room == old(self).room,
            r ==> old(self).left.is_none() && old(self).right.is_none() && final(self).left.is_some()
                && final(self).right.is_some(),
            r ==> halves(
                old(self).rect,
                final(self).left.unwrap().rect,
                final(self).right.unwrap().rect,
            ),
            r ==> bare_leaf(*final(self).left.unwrap()) && bare_leaf(*final(self).right.unwrap()),
            r ==> old(self).rect.width > 2 * MINIMUM_WIDTH || old(self).rect.height > 2
                * MINIMUM_HEIGHT,
            old(self).left.is_none() && old(self).right.is_none() && ((old(self).rect.width
                > old(self).rect.height && old(self).rect.width > 2 * MINIMUM_WIDTH) || (
            old(self).rect.height > old(self).rect.width && old(self).rect.height > 2
                * MINIMUM_HEIGHT) || (old(self).rect.width == old(self).rect.height
                && old(self).rect.width > 2 * MINIMUM_WIDTH)) ==> r,
            !r ==> *final(self) == *old(self),
    {
        if self.left.is_some() || self.right.is_some() {
            return false;
        }
        let rect = self.rect;
        let is_horizontal = if rect.width < rect.height {
            false
        } else if rect.width > rect.height {
            true
        } else {
            chance(1, 2)
        };
        let (left, right) = if is_horizontal {
            if rect.width < MINIMUM_WIDTH * 2 {
                return false;
            }
            let min_range = rect.x + MINIMUM_WIDTH;
            let max_range = rect.x + rect.width - MINIMUM_WIDTH;
            if min_range == max_range {
                return false;
            }
            let split_at = random_below(min_range, max_range);
            let left = Rect::new(rect.x, rect.y, split_at - rect.x, rect.height);
            let right = Rect::new(split_at, rect.y, rect.x + rect.width - split_at, rect.height);
            (left, right)
        } else {
            if rect.height < MINIMUM_HEIGHT * 2 {
                return false;
            }
            let min_range = rect.y + MINIMUM_HEIGHT;
            let max_range = rect.y + rect.height - MINIMUM_HEIGHT;
            if min_range == max_range {
                return false;
            }
            let split_at = random_below(min_range, max_range);
            let left = Rect::new(rect.x, rect.y, rect.width, split_at - rect.y);
            let right = Rect::new(rect.x, split_at, rect.width, rect.y + rect.height - split_at);
            (left, right)
        };
        self.left = Some(Box::new(BSPNode::new(left)));
        self.right = Some(Box::new(BSPNode::new(right)));
        true
    }

    /// Splits the tree `depth` levels deep, as far as the minimum size allows.
    pub fn split_recursively(&mut self, depth: isize)
        requires
            old(self).wf(),
        ensures
            final(self).wf(),
            final(self).rect == old(self).rect,
            final(self).room == old(self).room,
            depth <= 0 ==> *final(self) == *old(self),
            old(self).left.is_none() && old(self).right.is_none() ==> tree_height(*final(self))
                <= (if depth <= 0 {
                0
            } else {
                depth as nat
            }),
        decreases depth,
    {
        if depth <= 0 {
            return ;
        }
        if self.split() {
            if let Some(left) = &mut self.left {
                left.split_recursively(depth - 1);
            }
            if let Some(right) = &mut self.right {
                right.split_recursively(depth - 1);
            }
        }
    }

    /// Carves a room into a leaf: its rectangle shrunk by a margin drawn from
    /// `1..MINIMUM_WIDTH / 2` (so one tile) on each side, unless the room would touch one
    /// of `carved_rooms`. Returns whether it carved.
    fn carve_room(&mut self, carved_rooms: &Vec<Rect>) -> (r: bool)
        requires
            old(self).wf(),
            forall|i: int|
                0 <= i < carved_rooms@.len() ==> carved_rooms@[i].x + carved_rooms@[i].width
                    <= usize::MAX && carved_rooms@[i].y + carved_rooms@[i].height <= usize::MAX,
        ensures
            final(self).wf(),
            final(self).rect == old(self).rect,
            final(self).left == old(self).left,
            final(self).right == old(self).right,
            r == (old(self).left.is_none() && old(self).right.is_none() && old(self).rect.width
                >= 2 && old(self).rect.height >= 2 && forall|i: int|
                0 <= i < carved_rooms@.len() ==> !carved_rooms@[i].intersects_spec(
                    inner(old(self).rect),
                )),
            r ==> final(self).room == Some(inner(old(self).rect)),
            !r ==> *final(self) == *old(self),
    {
        if !self.is_leaf() {
            return false;
        }
        let margin_x = random_below(1, MINIMUM_WIDTH / 2);
        let margin_y = random_below(1, MINIMUM_HEIGHT / 2);
        let rect = self.rect;
        if rect.width < 2 * margin_x || rect.height < 2 * margin_y {
            return false;
        }
        let room = Rect::new(
            rect.x + margin_x,
            rect.y + margin_y,
            rect.width - 2 * margin_x,
            rect.height - 2 * margin_y,
        );
        let mut i: usize = 0;
        while i < carved_rooms.len()
            invariant
                *self == *old(self),
                old(self).wf(),
                old(self).left.is_none() && old(self).right.is_none(),
                old(self).rect.width >= 2 && old(self).rect.height >= 2,
                room == inner(old(self).rect),
                i <= carved_rooms@.len(),
                room.x + room.width <= usize::MAX,
                room.y + room.height <= usize::MAX,
                forall|k: int|
                    0 <= k < carved_rooms@.len() ==> carved_rooms@[k].x + carved_rooms@[k].width
                        <= usize::MAX && carved_rooms@[k].y + carved_rooms@[k].height <= usize::MAX,
                forall|k: int| 0 <= k < i ==> !carved_rooms@[k].intersects_spec(room),
            decreases carved_rooms@.len() - i,
        {
            if carved_rooms[i].intersects(&room) {
                return false;
            }
            i = i + 1;
        }
        self.room = Some(room);
        true
    }

    /// Visits the tree in pre-order, carving a room into each leaf that has space for
    /// one apart from the rooms carved so far, and appends each room to `carved`.
    fn carve_pre_order(&mut self, carved: &mut Vec<Rect>, Ghost(outer): Ghost<Rect>)
        requires
            old(self).wf(),
            old(self).rect.within(outer),
            outer.x + outer.width <= usize::MAX,
            outer.y + outer.height <= usize::MAX,
            rooms_disjoint(old(carved)@),
            forall|i: int| 0 <= i < old(carved)@.len() ==> old(carved)@[i].within(outer),
        ensures
            final(self).wf(),
            final(self).rect == old(self).rect,
            rooms_disjoint(final(carved)@),
            forall|i: int| 0 <= i < final(carved)@.len() ==> final(carved)@[i].within(outer),
            rooms_of(*old(self)).len() == 0 ==> final(carved)@ == old(carved)@ + rooms_of(
                *final(self),
            ),
        decreases *old(self),
    {
        let ghost c0 = carved@;
        let ghost none_before = rooms_of(*self).len() == 0;
        if self.carve_room(carved) {
            if let Some(room) = self.room {
                let ghost before = carved@;
                carved.push(room);
                assert forall|i: int, j: int|
                    0 <= i < j < carved@.len() implies !carved@[i].intersects_spec(carved@[j]) by {
                    if j < before.len() {
                        assert(carved@[i] == before[i] && carved@[j] == before[j]);
                    }
                }
            }
        }
        proof {
            if none_before {
                assert(carved@ =~= c0 + own_room(*self));
                assert(subtree_rooms(self.left).len() == 0);
                assert(subtree_rooms(self.right).len() == 0);
            }
        }
        let ghost c1 = carved@;
        if let Some(left) = &mut self.left {
            left.carve_pre_order(carved, Ghost(outer));
        }
        proof {
            if none_before {
                assert(carved@ =~= c1 + subtree_rooms(self.left));
            }
        }
        let ghost c2 = carved@;
        if let Some(right) = &mut self.right {
            right.carve_pre_order(carved, Ghost(outer));
        }
        proof {
            if none_before {
                assert(carved@ =~= c2 + subtree_rooms(self.right));
                assert(carved@ =~= c0 + rooms_of(*self));
            }
        }
    }

    /// Carves rooms into the leaves, in pre-order, each apart from those carved before;
    /// returns the rooms, all within the node's rectangle and no two touching.
    pub fn carve_all_rooms(&mut self) -> (r: Vec<Rect>)
        requires
            old(self).wf(),
        ensures
            final(self).wf(),
            final(self).rect == old(self).rect,
            rooms_disjoint(r@),
            forall|i: int| 0 <= i < r@.len() ==> r@[i].within(old(self).rect),
            rooms_of(*old(self)).len() == 0 ==> r@ == rooms_of(*final(self)),
    {
        let mut carved_rooms: Vec<Rect> = Vec::new();
        self.carve_pre_order(&mut carved_rooms, Ghost(self.rect));
        proof {
            if rooms_of(*old(self)).len() == 0 {
                assert(carved_rooms@ =~= Seq::<Rect>::empty() + rooms_of(*self));
            }
        }
        carved_rooms
    }

    /// Digs an L-shaped corridor of floor between the centres of two rooms: along the
    /// first room's row, then along the second room's column.
    fn create_corridor(room1: &Rect, room2: &Rect, map: &mut TileMap)
        requires
            room1.x + room1.width <= usize::MAX,
            room1.y + room1.height <= usize::MAX,
            room2.x + room2.width <= usize::MAX,
            room2.y + room2.height <= usize::MAX,
        ensures
            final(map).width() == old(map).width(),
            final(map)@.0.len() == old(map)@.0.len(),
            floored_from(old(map)@.0, final(map)@.0),
    {
        let (x1, y1) = room1.center();
        let (x2, y2) = room2.center();
        let (lo, hi) = if x1 <= x2 {
            (x1, x2)
        } else {
            (x2, x1)
        };
        let mut x = lo;
        while x < hi
            invariant
                lo <= x <= hi,
                map.width() == old(map).width(),
                map@.0.len() == old(map)@.0.len(),
                floored_from(old(map)@.0, map@.0),
            decreases hi - x,
        {
            floor_tile(map, x, y1, Ghost(old(map)@.0));
            x = x + 1;
        }
        floor_tile(map, hi, y1, Ghost(old(map)@.0));
        let (lo, hi) = if y1 <= y2 {
            (y1, y2)
        } else {
            (y2, y1)
        };
        let mut y = lo;
        while y < hi
            invariant
                lo <= y <= hi,
                map.width() == old(map).width(),
                map@.0.len() == old(map)@.0.len(),
                floored_from(old(map)@.0, map@.0),
            decreases hi - y,
        {
            floor_tile(map, x2, y, Ghost(old(map)@.0));
            y = y + 1;
        }
        floor_tile(map, x2, hi, Ghost(old(map)@.0));
    }

    /// Connects the rooms of each pair of sibling leaves, all the way down.
    pub fn create_all_corridors(&mut self, map: &mut TileMap)
        requires
            old(self).wf(),
        ensures
            *final(self) == *old(self),
            final(map).width() == old(map).width(),
            final(map)@.0.len() == old(map)@.0.len(),
            floored_from(old(map)@.0, final(map)@.0),
    {
        self.connect_siblings(map);
    }

    fn connect_siblings(&self, map: &mut TileMap)
        requires
            self.wf(),
        ensures
            final(map).width() == old(map).width(),
            final(map)@.0.len() == old(map)@.0.len(),
            floored_from(old(map)@.0, final(map)@.0),
        decreases self,
    {
        if let (Some(left), Some(right)) = (&self.left, &self.right) {
            assert(left.wf() && right.wf());
            if let (Some(l), Some(r)) = (&left.room, &right.room) {
                assert(l.within(left.rect) && r.within(right.rect));
                Self::create_corridor(l, r, map);
            }
            left.connect_siblings(map);
            right.connect_siblings(map);
        }
    }

    /// Appends the rooms of the tree to `rooms`, in pre-order.
    pub fn collect_rooms(&self, rooms: &mut Vec<Rect>)
        requires
            self.wf(),
        ensures
            final(rooms)@ == old(rooms)@ + rooms_of(*self),
            final(rooms)@.len() >= old(rooms)@.len(),
            final(rooms)@.subrange(0, old(rooms)@.len() as int) == old(rooms)@,
            forall|i: int|
                old(rooms)@.len() <= i < final(rooms)@.len() ==> final(rooms)@[i].within(
                    self.rect,
                ),
        decreases self,
    {
        let ghost r0 = rooms@;
        let ghost own = own_room(*self);
        let ghost lr = subtree_rooms(self.left);
        let ghost rr = subtree_rooms(self.right);
        if let Some(room) = &self.room {
            rooms.push(*room);
        }
        assert(rooms@ =~= r0 + own);
        assert(rooms@.subrange(0, r0.len() as int) =~= r0);
        if let Some(left) = &self.left {
            let ghost r1 = rooms@;
            left.collect_rooms(rooms);
            assert(rooms@ =~= r0 + own + lr);
            assert(rooms@.subrange(0, r1.len() as int) == r1);
            assert(rooms@.subrange(0, r0.len() as int) =~= r1.subrange(0, r0.len() as int));
            assert forall|i: int| r0.len() <= i < rooms@.len() implies rooms@[i].within(
                self.rect,
            ) by {
                if i < r1.len() {
                    assert(rooms@[i] == rooms@.subrange(0, r1.len() as int)[i]);
                }
            }
        }
        assert(rooms@ =~= r0 + own + lr);
        if let Some(right) = &self.right {
            let ghost r2 = rooms@;
            right.collect_rooms(rooms);
            assert(rooms@ =~= r0 + own + lr + rr);
            assert(rooms@.subrange(0, r2.len() as int) == r2);
            assert(rooms@.subrange(0, r0.len() as int) =~= r2.subrange(0, r0.len() as int));
            assert forall|i: int| r0.len() <= i < rooms@.len() implies rooms@[i].within(
                self.rect,
            ) by {
                if i < r2.len() {
                    assert(rooms@[i] == rooms@.subrange(0, r2.len() as int)[i]);
                }
            }
        }
        assert(rooms@ =~= r0 + (own + lr + rr));
    }

    /// Calls `visit` on every node of the tree, in pre-order.
    pub fn traverse_pre_order<F: FnMut(&BSPNode)>(&self, visit: &mut F)
        requires
            forall|g: F, n: &BSPNode| #[trigger] call_requires(g, (n,)),
        decreases self,
    {
        visit(self);
        if let Some(left) = &self.left {
            left.traverse_pre_order(visit);
        }
        if let Some(right) = &self.right {
            right.traverse_pre_order(visit);
        }
    }

    /// Connects each room to the next one in pre-order, so that all rooms are reachable.
    fn connect_rooms_in_sequence(&self, map: &mut TileMap)
        requires
            self.wf(),
        ensures
            final(map).width() == old(map).width(),
            final(map)@.0.len() == old(map)@.0.len(),
            floored_from(old(map)@.0, final(map)@.0),
    {
        let mut rooms: Vec<Rect> = Vec::new();
        self.collect_rooms(&mut rooms);
        let mut i: usize = 1;
        while i < rooms.len()
            invariant
                1 <= i,
                self.wf(),
                forall|k: int| 0 <= k < rooms@.len() ==> rooms@[k].within(self.rect),
                map.width() == old(map).width(),
                map@.0.len() == old(map)@.0.len(),
                floored_from(old(map)@.0, map@.0),
            decreases rooms@.len() - i,
        {
            Self::create_corridor(&rooms[i - 1], &rooms[i], map);
            i = i + 1;
        }
    }

    /// Generates a dungeon into `map`: partitions it `depth` levels deep, carves a room
    /// into the leaves, fills each room's interior with floor, and joins the rooms with
    /// corridors, siblings first, then each to the next in pre-order.
    pub fn create_dungeon(map: &mut TileMap, depth: isize)
        ensures
            final(map).width() == old(map).width(),
            final(map)@.0.len() == old(map)@.0.len(),
            floored_from(old(map)@.0, final(map)@.0),
    {
        let mut root = Self::root(map);
        root.split_recursively(depth);
        let carved_rooms = root.carve_all_rooms();
        let mut k: usize = 0;
        while k < carved_rooms.len()
            invariant
                forall|i: int| 0 <= i < carved_rooms@.len() ==> carved_rooms@[i].within(root.rect),
                root.rect.x == 0 && root.rect.y == 0,
                root.rect.width <= usize::MAX && root.rect.height <= usize::MAX,
                map.width() == old(map).width(),
                map@.0.len() == old(map)@.0.len(),
                floored_from(old(map)@.0, map@.0),
            decreases carved_rooms@.len() - k,
        {
            let room = carved_rooms[k];
            if room.width == 0 || room.height == 0 {
                k = k + 1;
                continue;
            }
            let mut y = room.y + 1;
            while y < room.y + room.height
                invariant
                    room.width > 0,
                    room.within(root.rect),
                    root.rect.x == 0 && root.rect.y == 0,
                    root.rect.width <= usize::MAX && root.rect.height <= usize::MAX,
                    map.width() == old(map).width(),
                    map@.0.len() == old(map)@.0.len(),
                    floored_from(old(map)@.0, map@.0),
                decreases room.y + room.height - y,
            {
                let mut x = room.x + 1;
                while x < room.x + room.width
                    invariant
                        room.width > 0,
                        room.within(root.rect),
                        root.rect.x == 0 && root.rect.y == 0,
                        root.rect.width <= usize::MAX && root.rect.height <= usize::MAX,
                        map.width() == old(map).width(),
                        map@.0.len() == old(map)@.0.len(),
                        floored_from(old(map)@.0, map@.0),
                    decreases room.x + room.width - x,
                {
                    floor_tile(map, x, y, Ghost(old(map)@.0));
                    x = x + 1;
                }
                y = y + 1;
            }
            k = k + 1;
        }
        root.create_all_corridors(map);
        root.connect_rooms_in_sequence(map);
    }
}

/// No two rooms of the list touch.
pub open spec fn rooms_disjoint(rooms: Seq<Rect>) -> bool {
    forall|i: int, j: int| 0 <= i < j < rooms.len() ==> !rooms[i].intersects_spec(rooms[j])
}

} // verus!
