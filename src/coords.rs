//! Chunk addressing: integer chunk coordinates, and world points in fixed-point units.
use vstd::prelude::*;

verus! {

/// Edge length of a chunk, in blocks.
pub const S: i64 = 16;

/// Number of point units per block: points carry sub-block precision.
pub const POINT_UNITS: i64 = 256;

/// Edge length of a chunk, in point units.
pub const SPAN: i64 = 4096;

/// Half the edge length of a chunk, in point units.
pub const HALF_SPAN: i64 = 2048;

/// A position in the world, in fixed-point units (`POINT_UNITS` per block).
#[derive(Debug, Copy, Clone, PartialEq, Eq, Structural)]
pub struct Point {
    pub x: i64,
    pub y: i64,
    pub z: i64,
}

/// The integer address of one cubical chunk of edge `S` blocks.
#[derive(Debug, Copy, Clone, PartialEq, Eq, Hash, Structural)]
pub struct ChunkCoordinates {
    pub x: i32,
    pub y: i32,
    pub z: i32,
}

/// A point component whose containing chunk index fits in an `i32`.
pub open spec fn component_in_range(v: int) -> bool {
    i32::MIN * SPAN <= v < (i32::MAX + 1) * SPAN
}

/// A point whose containing chunk is addressable.
pub open spec fn point_in_range(p: Point) -> bool {
    component_in_range(p.x as int) && component_in_range(p.y as int) && component_in_range(p.z as int)
}

/// The chunk index containing a point component: floor division by the chunk span.
pub open spec fn chunk_index(v: int) -> int {
    v / (SPAN as int)
}

/// The chunk containing a point.
pub open spec fn containing_spec(p: Point) -> ChunkCoordinates {
    ChunkCoordinates {
        x: chunk_index(p.x as int) as i32,
        y: chunk_index(p.y as int) as i32,
        z: chunk_index(p.z as int) as i32,
    }
}

/// The lowest point of a chunk, componentwise.
pub open spec fn low_corner(c: ChunkCoordinates) -> Point {
    Point { x: (c.x * SPAN) as i64, y: (c.y * SPAN) as i64, z: (c.z * SPAN) as i64 }
}

/// The centroid of a chunk.
pub open spec fn center_spec(c: ChunkCoordinates) -> Point {
    Point {
        x: (c.x * SPAN + HALF_SPAN) as i64,
        y: (c.y * SPAN + HALF_SPAN) as i64,
        z: (c.z * SPAN + HALF_SPAN) as i64,
    }
}

/// Corner `i` of a chunk: bit 2 of `i` moves along x, bit 1 along y, bit 0 along z.
pub open spec fn corner_spec(c: ChunkCoordinates, i: int) -> Point {
    Point {
        x: (c.x * SPAN + if (i / 4) % 2 == 1 { SPAN as int } else { 0 }) as i64,
        y: (c.y * SPAN + if (i / 2) % 2 == 1 { SPAN as int } else { 0 }) as i64,
        z: (c.z * SPAN + if i % 2 == 1 { SPAN as int } else { 0 }) as i64,
    }
}

/// Squared euclidean distance between two points.
pub open spec fn square_distance_spec(a: Point, b: Point) -> int {
    (a.x - b.x) * (a.x - b.x) + (a.y - b.y) * (a.y - b.y) + (a.z - b.z) * (a.z - b.z)
}

proof fn lemma_chunk_index_bounds(v: int)
    requires
        component_in_range(v),
    ensures
        i32::MIN <= chunk_index(v) <= i32::MAX,
        chunk_index(v) * SPAN <= v < chunk_index(v) * SPAN + SPAN,
{
    let q = v / (SPAN as int);
    let r = v % (SPAN as int);
    vstd::arithmetic::div_mod::lemma_fundamental_div_mod(v, SPAN as int);
    vstd::arithmetic::div_mod::lemma_mod_bound(v, SPAN as int);
    assert(i32::MIN <= q <= i32::MAX) by (nonlinear_arith)
        requires
            v == q * SPAN + r,
            0 <= r < SPAN,
            i32::MIN * SPAN <= v < (i32::MAX + 1) * SPAN,
    ;
}

fn floor_index(v: i64) -> (r: i32)
    requires
        component_in_range(v as int),
    ensures
        r as int == chunk_index(v as int),
{
    proof {
        lemma_chunk_index_bounds(v as int);
    }
    if v >= 0 {
        (v / SPAN) as i32
    } else {
        let q = (-v - 1) / SPAN;
        proof {
            let a = -v - 1;
            let w = v as int;
            assert(w == -(q * SPAN) - (a % (SPAN as int)) - 1) by (nonlinear_arith)
                requires
                    a == -w - 1,
                    a == q * SPAN + a % (SPAN as int),
            {
            }
            assert(chunk_index(w) == -q - 1) by (nonlinear_arith)
                requires
                    w == (-q - 1) * SPAN + (SPAN - 1 - a % (SPAN as int)),
                    0 <= a % (SPAN as int) < SPAN,
            {
                vstd::arithmetic::div_mod::lemma_fundamental_div_mod_converse(
                    w,
                    SPAN as int,
                    -q - 1,
                    SPAN - 1 - a % (SPAN as int),
                );
            }
        }
        (-q - 1) as i32
    }
}

impl ChunkCoordinates {
    /// The chunk that contains the point `pos`: floor of `pos / SPAN` on each axis.
    pub fn containing_world_pos(pos: Point) -> (r: ChunkCoordinates)
        requires
            point_in_range(pos),
        ensures
            r == containing_spec(pos),
    {
        ChunkCoordinates { x: floor_index(pos.x), y: floor_index(pos.y), z: floor_index(pos.z) }
    }

    /// The centroid of this chunk.
    pub fn center(&self) -> (r: Point)
        ensures
            r == center_spec(*self),
    {
        Point {
            x: self.x as i64 * SPAN + HALF_SPAN,
            y: self.y as i64 * SPAN + HALF_SPAN,
            z: self.z as i64 * SPAN + HALF_SPAN,
        }
    }

    /// The eight corner points of this chunk's cube.
    pub fn corners(&self) -> (r: [Point; 8])
        ensures
            forall|i: int| 0 <= i < 8 ==> #[trigger] r@[i] == corner_spec(*self, i),
    {
        let x = self.x as i64 * SPAN;
        let y = self.y as i64 * SPAN;
        let z = self.z as i64 * SPAN;
        let r = [
            Point { x, y, z },
            Point { x, y, z: z + SPAN },
            Point { x, y: y + SPAN, z },
            Point { x, y: y + SPAN, z: z + SPAN },
            Point { x: x + SPAN, y, z },
            Point { x: x + SPAN, y, z: z + SPAN },
            Point { x: x + SPAN, y: y + SPAN, z },
            Point { x: x + SPAN, y: y + SPAN, z: z + SPAN },
        ];
        assert(forall|i: int| 0 <= i < 8 ==> #[trigger] r@[i] == corner_spec(*self, i)) by {
            assert forall|i: int| 0 <= i < 8 implies #[trigger] r@[i] == corner_spec(*self, i) by {
                if i == 0 {} else if i == 1 {} else if i == 2 {} else if i == 3 {}
                else if i == 4 {} else if i == 5 {} else if i == 6 {} else {}
            }
        }
        r
    }
}

impl Point {
    /// Squared euclidean distance from `self` to `other`.
    pub fn square_distance(&self, other: &Point) -> (r: u128)
        requires
            point_in_range(*self),
            point_in_range(*other),
        ensures
            r as int == square_distance_spec(*self, *other),
            r < 0x1_0000_0000_0000_0000_0000_0000,
    {
        let dx = (self.x as i128 - other.x as i128);
        let dy = (self.y as i128 - other.y as i128);
        let dz = (self.z as i128 - other.z as i128);
        let bound: i128 = 0x8000_0000_0000;
        assert(-bound <= dx <= bound && -bound <= dy <= bound && -bound <= dz <= bound);
        assert(0 <= dx * dx <= bound * bound) by (nonlinear_arith)
            requires -bound <= dx <= bound;
        assert(0 <= dy * dy <= bound * bound) by (nonlinear_arith)
            requires -bound <= dy <= bound;
        assert(0 <= dz * dz <= bound * bound) by (nonlinear_arith)
            requires -bound <= dz <= bound;
        (dx * dx + dy * dy + dz * dz) as u128
    }
}

/// Every chunk's centroid lies in that chunk: the containing chunk of `center(c)` is `c`.
pub proof fn lemma_center_round_trip(c: ChunkCoordinates)
    ensures
        point_in_range(center_spec(c)),
        containing_spec(center_spec(c)) == c,
{
    let p = center_spec(c);
    assert forall|v: int| i32::MIN <= v <= i32::MAX implies
        (#[trigger] chunk_index(v * SPAN + HALF_SPAN)) == v
        && component_in_range(v * SPAN + HALF_SPAN) by {
        vstd::arithmetic::div_mod::lemma_fundamental_div_mod_converse(
            v * SPAN + HALF_SPAN,
            SPAN as int,
            v,
            HALF_SPAN as int,
        );
        assert(component_in_range(v * SPAN + HALF_SPAN)) by (nonlinear_arith)
            requires i32::MIN <= v <= i32::MAX;
    }
    assert(chunk_index(c.x * SPAN + HALF_SPAN) == c.x);
    assert(chunk_index(c.y * SPAN + HALF_SPAN) == c.y);
    assert(chunk_index(c.z * SPAN + HALF_SPAN) == c.z);
}

/// The eight corners of a chunk are pairwise distinct, each component of each corner is the
/// low or the high bound of the chunk's extent on that axis, and every combination of bounds
/// is one of them: together they bound `[c*SPAN, (c+1)*SPAN)` on each axis exactly.
pub proof fn lemma_corners_bound_cube(c: ChunkCoordinates)
    ensures
        forall|i: int, j: int|
            0 <= i < 8 && 0 <= j < 8 && i != j ==> corner_spec(c, i) != corner_spec(c, j),
        forall|i: int| 0 <= i < 8 ==> {
            let p = #[trigger] corner_spec(c, i);
            (p.x == c.x * SPAN || p.x == (c.x + 1) * SPAN)
            && (p.y == c.y * SPAN || p.y == (c.y + 1) * SPAN)
            && (p.z == c.z * SPAN || p.z == (c.z + 1) * SPAN)
        },
        forall|hx: bool, hy: bool, hz: bool| {
            let i = corner_index(hx, hy, hz);
            0 <= i < 8 && #[trigger] extent_point(c, hx, hy, hz) == corner_spec(c, i)
        },
{
}

/// The position of corner `(hx, hy, hz)` in the numbering of `corner_spec`.
pub open spec fn corner_index(hx: bool, hy: bool, hz: bool) -> int {
    (if hx { 4int } else { 0 }) + (if hy { 2int } else { 0 }) + (if hz { 1int } else { 0 })
}

/// The point of a chunk's extent at the high (`true`) or low bound of each axis.
pub open spec fn extent_point(c: ChunkCoordinates, hx: bool, hy: bool, hz: bool) -> Point {
    Point {
        x: (if hx { (c.x + 1) * SPAN } else { c.x * SPAN }) as i64,
        y: (if hy { (c.y + 1) * SPAN } else { c.y * SPAN }) as i64,
        z: (if hz { (c.z + 1) * SPAN } else { c.z * SPAN }) as i64,
    }
}

} // verus!
