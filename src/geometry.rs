//! Points of the grid and the cubic regions of the tree.

use vstd::prelude::*;

verus! {

/// A position on the integer grid.
#[derive(Clone, Copy, Debug, PartialEq, Eq, Structural)]
pub struct Point {
    pub x: i32,
    pub y: i32,
    pub z: i32,
}

impl Point {
    pub fn new(x: i32, y: i32, z: i32) -> (r: Point)
        ensures
            r == (Point { x, y, z }),
    {
        Point { x, y, z }
    }
}

/// The closed cube `[center - size, center + size]^3`.
#[derive(Clone, Copy, Debug, PartialEq, Eq, Structural)]
pub struct Bounds {
    pub center: Point,
    pub size: u32,
}

/// The interval `[c - s, c + s]` lies within the range of `i32`.
pub open spec fn axis_fits(c: i32, s: u32) -> bool {
    i32::MIN <= c - s && c + s <= i32::MAX
}

/// Bit `bit` of the octant code `i`.
pub open spec fn octant_bit(i: int, bit: int) -> bool {
    if bit == 0 {
        i % 2 == 1
    } else if bit == 1 {
        (i / 2) % 2 == 1
    } else {
        (i / 4) % 2 == 1
    }
}

/// Center coordinate of a child cube along one axis.
pub open spec fn child_axis(c: i32, s: u32, high: bool) -> int {
    if high {
        c + s / 2
    } else {
        c - s / 2
    }
}

impl Bounds {
    /// Every corner of the cube is a point of the grid.
    pub open spec fn wf(self) -> bool {
        axis_fits(self.center.x, self.size) && axis_fits(self.center.y, self.size)
            && axis_fits(self.center.z, self.size)
    }

    /// Whether the cube can be split into eight cubes that tile it exactly.
    pub open spec fn splittable(self) -> bool {
        self.size >= 2 && self.size % 2 == 0
    }

    pub open spec fn contains_spec(self, p: Point) -> bool {
        self.center.x - self.size <= p.x <= self.center.x + self.size
            && self.center.y - self.size <= p.y <= self.center.y + self.size
            && self.center.z - self.size <= p.z <= self.center.z + self.size
    }

    /// The octant code of `p`: bit 0 for `x`, bit 1 for `y`, bit 2 for `z`,
    /// each set when `p` lies strictly above the center on that axis.
    pub open spec fn octant_spec(self, p: Point) -> int {
        (if p.x > self.center.x { 1int } else { 0int }) + (if p.y > self.center.y {
            2int
        } else {
            0int
        }) + (if p.z > self.center.z { 4int } else { 0int })
    }

    /// The child cube with octant code `i`.
    pub open spec fn octant_bounds(self, i: int) -> Bounds {
        Bounds {
            center: Point {
                x: child_axis(self.center.x, self.size, octant_bit(i, 0)) as i32,
                y: child_axis(self.center.y, self.size, octant_bit(i, 1)) as i32,
                z: child_axis(self.center.z, self.size, octant_bit(i, 2)) as i32,
            },
            size: (self.size / 2) as u32,
        }
    }

    pub fn new(center: Point, size: u32) -> (r: Bounds)
        ensures
            r == (Bounds { center, size }),
    {
        Bounds { center, size }
    }

    pub fn can_split(&self) -> (r: bool)
        ensures
            r == self.splittable(),
    {
        self.size >= 2 && self.size % 2 == 0
    }

    pub fn contains(&self, point: Point) -> (r: bool)
        ensures
            r == self.contains_spec(point),
    {
        let s = self.size as i64;
        let c = self.center;
        point.x as i64 >= c.x as i64 - s && point.x as i64 <= c.x as i64 + s && point.y as i64
            >= c.y as i64 - s && point.y as i64 <= c.y as i64 + s && point.z as i64 >= c.z as i64
            - s && point.z as i64 <= c.z as i64 + s
    }

    pub fn get_octant(&self, point: &Point) -> (r: usize)
        ensures
            r == self.octant_spec(*point),
            r < 8,
    {
        let mut index: usize = 0;
        if point.x > self.center.x {
            index = index + 1;
        }
        if point.y > self.center.y {
            index = index + 2;
        }
        if point.z > self.center.z {
            index = index + 4;
        }
        index
    }

    pub fn into_octant(self, i: usize) -> (r: Bounds)
        requires
            self.wf(),
            self.splittable(),
            i < 8,
        ensures
            r == self.octant_bounds(i as int),
            r.wf(),
    {
        let h = self.size / 2;
        let c = self.center;
        let x = if i % 2 == 1 {
            c.x as i64 + h as i64
        } else {
            c.x as i64 - h as i64
        };
        let y = if (i / 2) % 2 == 1 {
            c.y as i64 + h as i64
        } else {
            c.y as i64 - h as i64
        };
        let z = if (i / 4) % 2 == 1 {
            c.z as i64 + h as i64
        } else {
            c.z as i64 - h as i64
        };
        Bounds { center: Point { x: x as i32, y: y as i32, z: z as i32 }, size: h }
    }

    pub fn into_octants(&self) -> (r: [Bounds; 8])
        requires
            self.wf(),
            self.splittable(),
        ensures
            forall|i: int| 0 <= i < 8 ==> #[trigger] r@[i] == self.octant_bounds(i),
            forall|i: int| 0 <= i < 8 ==> (#[trigger] r@[i]).wf(),
    {
        let b = *self;
        let r = [
            b.into_octant(0),
            b.into_octant(1),
            b.into_octant(2),
            b.into_octant(3),
            b.into_octant(4),
            b.into_octant(5),
            b.into_octant(6),
            b.into_octant(7),
        ];
        assert(forall|i: int| 0 <= i < 8 ==> #[trigger] r@[i] == self.octant_bounds(i)) by {
            assert(r@[0] == self.octant_bounds(0));
        }
        r
    }
}

/// The eight children of a splittable cube tile it: each point of the cube
/// lies in the child that its octant code names, each point of a child lies in
/// the cube, and two children share only points on a dividing plane.
pub proof fn lemma_octants_tile(b: Bounds, p: Point)
    requires
        b.wf(),
        b.splittable(),
    ensures
        b.contains_spec(p) ==> b.octant_bounds(b.octant_spec(p)).contains_spec(p),
        forall|i: int| 0 <= i < 8 && (#[trigger] b.octant_bounds(i)).contains_spec(p) ==> b.contains_spec(p),
        forall|i: int, j: int|
            0 <= i < j < 8 && (#[trigger] b.octant_bounds(i)).contains_spec(p)
                && (#[trigger] b.octant_bounds(j)).contains_spec(p) ==> p.x == b.center.x
                || p.y == b.center.y || p.z == b.center.z,
        forall|i: int|
            0 <= i < 8 && (#[trigger] b.octant_bounds(i)).contains_spec(p) && p.x != b.center.x
                && p.y != b.center.y && p.z != b.center.z ==> b.octant_spec(p) == i,
{
}

} // verus!
