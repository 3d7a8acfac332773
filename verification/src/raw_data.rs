use vstd::prelude::*;

verus! {

/// A 3D vector as the room file writes it: each coordinate is the text of an
/// `f32` literal, as `winnow::ascii::float` recognizes it.
#[derive(Clone, Debug)]
pub struct Vec3 {
    pub x: Vec<u8>,
    pub y: Vec<u8>,
    pub z: Vec<u8>,
}

impl Vec3 {
    pub fn new(x: Vec<u8>, y: Vec<u8>, z: Vec<u8>) -> (v: Vec3)
        ensures
            v.x@ == x@,
            v.y@ == y@,
            v.z@ == z@,
    {
        Vec3 { x, y, z }
    }
}

/// A wall segment as read from the room file.
#[derive(Clone, Debug)]
pub struct RawWall {
    pub id: i64,
    pub start: Vec3,
    pub end: Vec3,
}

impl RawWall {
    pub fn new(id: i64, start: Vec3, end: Vec3) -> (w: RawWall)
        ensures
            w.id == id,
            w.start == start,
            w.end == end,
    {
        RawWall { id, start, end }
    }
}

/// A door as read from the room file; `width` and `height` are `f32` literals.
#[derive(Clone, Debug)]
pub struct RawDoor {
    pub id: i64,
    pub wall0_id: i64,
    pub wall1_id: i64,
    pub position: Vec3,
    pub width: Vec<u8>,
    pub height: Vec<u8>,
}

impl RawDoor {
    pub fn new(
        id: i64,
        wall0_id: i64,
        wall1_id: i64,
        position: Vec3,
        width: Vec<u8>,
        height: Vec<u8>,
    ) -> (d: RawDoor)
        ensures
            d.id == id,
            d.wall0_id == wall0_id,
            d.wall1_id == wall1_id,
            d.position == position,
            d.width@ == width@,
            d.height@ == height@,
    {
        RawDoor { id, wall0_id, wall1_id, position, width, height }
    }
}

/// An oriented box around an object; `angle` (radians about z) is an `f32` literal.
#[derive(Clone, Debug)]
pub struct RawBBox {
    pub center: Vec3,
    pub angle: Vec<u8>,
    pub size: Vec3,
}

impl RawBBox {
    pub fn new(center: Vec3, angle: Vec<u8>, size: Vec3) -> (b: RawBBox)
        ensures
            b.center == center,
            b.angle@ == angle@,
            b.size == size,
    {
        RawBBox { center, angle, size }
    }
}

/// Everything the room file describes, in file order.
#[derive(Clone, Debug)]
pub struct RawData {
    pub walls: Vec<RawWall>,
    pub doors: Vec<RawDoor>,
    pub bboxes: Vec<RawBBox>,
}

impl RawData {
    pub fn new(walls: Vec<RawWall>, doors: Vec<RawDoor>, bboxes: Vec<RawBBox>) -> (d: RawData)
        ensures
            d.walls@ == walls@,
            d.doors@ == doors@,
            d.bboxes@ == bboxes@,
    {
        RawData { walls, doors, bboxes }
    }
}

} // verus!
