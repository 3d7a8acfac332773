use vstd::prelude::*;

use crate::geometry::{f32_rank, f32_rank_of, Point};

verus! {

/// A wall segment on the ground plane.
#[derive(Clone, Copy, Debug, PartialEq, Eq, Structural)]
pub struct Wall {
    pub id: i64,
    pub a: Point,
    pub b: Point,
}

impl Wall {
    pub fn new(id: i64, a: Point, b: Point) -> (w: Wall)
        ensures
            w == (Wall { id, a, b }),
    {
        Wall { id, a, b }
    }
}

/// A door on the ground plane: its center, its width (an `f32` bit pattern)
/// and the wall it is set in.
#[derive(Clone, Copy, Debug, PartialEq, Eq, Structural)]
pub struct Door {
    pub pos: Point,
    pub width: u32,
    pub wall_id: i64,
}

impl Door {
    pub fn new(pos: Point, width: u32, wall_id: i64) -> (d: Door)
        ensures
            d == (Door { pos, width, wall_id }),
    {
        Door { pos, width, wall_id }
    }
}

/// An object's footprint: a box of the given size (two `f32` bit patterns)
/// around `center`, turned by `angle` (an `f32` bit pattern, radians).
#[derive(Clone, Copy, Debug)]
pub struct BBox {
    pub center: Point,
    pub size: (u32, u32),
    pub angle: u32,
}

impl BBox {
    pub fn new(center: Point, size: (u32, u32), angle: u32) -> (b: BBox)
        ensures
            b == (BBox { center, size, angle }),
    {
        BBox { center, size, angle }
    }
}

/// The room once projected on the ground and cleaned up.
#[derive(Clone, Debug)]
pub struct Data {
    pub walls: Vec<Wall>,
    pub doors: Vec<Door>,
    pub bboxes: Vec<BBox>,
}

/// The greater of two `f32` bit patterns in the order of ordered floats; the
/// second one when the two rank equal.
pub open spec fn ordered_max(a: u32, b: u32) -> u32 {
    if f32_rank(a) <= f32_rank(b) {
        b
    } else {
        a
    }
}

/// The least of the tops of `zs` (each wall's higher end, see `ordered_max`)
/// in the order of ordered floats, the first one among equals; `None` when
/// there is no wall.
pub open spec fn lowest_top(zs: Seq<(u32, u32)>) -> Option<u32>
    decreases zs.len(),
{
    if zs.len() == 0 {
        None
    } else {
        let t = ordered_max(zs.last().0, zs.last().1);
        match lowest_top(zs.drop_last()) {
            None => Some(t),
            Some(m) => if f32_rank(t) < f32_rank(m) {
                Some(t)
            } else {
                Some(m)
            },
        }
    }
}

/// The height of the highest wall base: over the walls, given by the heights
/// of their two ends (`f32` bit patterns), the least of their higher ends;
/// `0.0` when there is no wall. Objects standing far above it are dropped.
pub fn highest_wall_base(zs: &Vec<(u32, u32)>) -> (r: u32)
    ensures
        r == match lowest_top(zs@) {
            Some(m) => m,
            None => 0u32,
        },
{
    let mut best: Option<u32> = None;
    for k in 0..zs.len()
        invariant
            best == lowest_top(zs@.take(k as int)),
    {
        assert(zs@.take(k + 1).drop_last() =~= zs@.take(k as int));
        let (a, b) = zs[k];
        let t = if f32_rank_of(a) <= f32_rank_of(b) {
            b
        } else {
            a
        };
        best = match best {
            None => Some(t),
            Some(m) => if f32_rank_of(t) < f32_rank_of(m) {
                Some(t)
            } else {
                Some(m)
            },
        };
    }
    assert(zs@.take(zs@.len() as int) =~= zs@);
    match best {
        Some(m) => m,
        None => 0,
    }
}

/// The first wall of `ws`, from position `k` on, whose id is `id`.
pub open spec fn first_wall_with_id(ws: Seq<Wall>, id: i64, k: int) -> Option<Wall>
    decreases ws.len() - k,
{
    if k < 0 || k >= ws.len() {
        None
    } else if ws[k].id == id {
        Some(ws[k])
    } else {
        first_wall_with_id(ws, id, k + 1)
    }
}

impl Data {
    /// The first wall whose id is `id`: the wall a door with that wall id is
    /// set in.
    pub fn find_wall(&self, id: i64) -> (r: Option<Wall>)
        ensures
            r == first_wall_with_id(self.walls@, id, 0),
    {
        let mut k: usize = 0;
        while k < self.walls.len()
            invariant
                k <= self.walls@.len(),
                first_wall_with_id(self.walls@, id, 0) == first_wall_with_id(self.walls@, id, k as int),
            decreases self.walls@.len() - k,
        {
            if self.walls[k].id == id {
                return Some(self.walls[k]);
            }
            k = k + 1;
        }
        None
    }

    pub fn extract_bboxes(&self) -> (r: Vec<BBox>)
        ensures
            r@ == self.bboxes@,
    {
        self.bboxes.clone()
    }

    pub fn extract_walls(&self) -> (r: Vec<Wall>)
        ensures
            r@ == self.walls@,
    {
        self.walls.clone()
    }

    /// The end points of every wall, in order.
    pub fn wall_segments(&self) -> (r: Vec<(Point, Point)>)
        ensures
            r@.len() == self.walls@.len(),
            forall|i: int| 0 <= i < r@.len() ==> #[trigger] r@[i] == (self.walls@[i].a, self.walls@[i].b),
    {
        let mut r: Vec<(Point, Point)> = Vec::new();
        for i in 0..self.walls.len()
            invariant
                r@.len() == i,
                forall|j: int| 0 <= j < i ==> #[trigger] r@[j] == (self.walls@[j].a, self.walls@[j].b),
        {
            r.push((self.walls[i].a, self.walls[i].b));
        }
        r
    }
}

} // verus!
