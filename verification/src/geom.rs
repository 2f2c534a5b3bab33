//! Integer vectors and half-open axis-aligned regions, plus the chunk
//! arithmetic that the world graph and the terrain generator share.

use vstd::prelude::*;
use crate::types::Coord;
use crate::CHUNK_SIZE;

verus! {

/// A point or extent in the horizontal chunk plane.
#[derive(Clone, Copy, PartialEq, Eq, Structural, Debug)]
pub struct V2 {
    pub x: Coord,
    pub y: Coord,
}

/// A point or extent in world space (tiles; z is height).
#[derive(Clone, Copy, PartialEq, Eq, Structural, Debug)]
pub struct V3 {
    pub x: Coord,
    pub y: Coord,
    pub z: Coord,
}

/// Floor division, matching mathematical integer division for a positive
/// divisor.
pub fn div_floor(a: i32, b: i32) -> (r: i32)
    requires
        b > 0,
        i32::MIN as int <= (a as int) / (b as int),
    ensures
        r == (a as int) / (b as int),
{
    if a >= 0 {
        proof {
            vstd::arithmetic::div_mod::lemma_div_nonincreasing(a as int, b as int);
            vstd::arithmetic::div_mod::lemma_div_pos_is_pos(a as int, b as int);
        }
        a / b
    } else {
        let m: i64 = -(a as i64);
        let t: i64 = (m + (b as i64) - 1) / (b as i64);
        proof {
            lemma_neg_floor_div(a as int, b as int, m as int, t as int);
        }
        (-t) as i32
    }
}

proof fn lemma_neg_floor_div(a: int, b: int, m: int, t: int)
    requires
        b > 0,
        a < 0,
        m == -a,
        t == (m + b - 1) / b,
    ensures
        -t == a / b,
        0 < t <= m,
{
    vstd::arithmetic::div_mod::lemma_fundamental_div_mod(m + b - 1, b);
    let s = (m + b - 1) % b;
    assert(m + b - 1 == b * t + s);
    vstd::arithmetic::mul::lemma_mul_is_commutative(b, t);
    assert(t * b == m + b - 1 - s);
    assert(m <= t * b <= m + b - 1);
    let r = t * b - m;
    assert(a == (-t) * b + r) by {
        vstd::arithmetic::mul::lemma_mul_unary_negation(t, b);
    }
    vstd::arithmetic::div_mod::lemma_fundamental_div_mod_converse(a, b, -t, r);
    assert(t > 0 && t <= m) by (nonlinear_arith)
        requires
            t * b >= m,
            t * b <= m + b - 1,
            m >= 1,
            b > 0,
    ;
}

impl V2 {
    pub fn new(x: Coord, y: Coord) -> (r: V2)
        ensures
            r == (V2 { x, y }),
    {
        V2 { x, y }
    }

    pub open spec fn spec_plus(self, o: V2) -> V2 {
        V2 { x: (self.x + o.x) as i32, y: (self.y + o.y) as i32 }
    }

    pub fn plus(self, o: V2) -> (r: V2)
        requires
            i32::MIN <= self.x + o.x <= i32::MAX,
            i32::MIN <= self.y + o.y <= i32::MAX,
        ensures
            r == self.spec_plus(o),
    {
        V2 { x: self.x + o.x, y: self.y + o.y }
    }

    pub open spec fn spec_minus(self, o: V2) -> V2 {
        V2 { x: (self.x - o.x) as i32, y: (self.y - o.y) as i32 }
    }

    pub fn minus(self, o: V2) -> (r: V2)
        requires
            i32::MIN <= self.x - o.x <= i32::MAX,
            i32::MIN <= self.y - o.y <= i32::MAX,
        ensures
            r == self.spec_minus(o),
    {
        V2 { x: self.x - o.x, y: self.y - o.y }
    }

    pub fn scale(self, k: Coord) -> (r: V2)
        requires
            i32::MIN <= self.x * k <= i32::MAX,
            i32::MIN <= self.y * k <= i32::MAX,
        ensures
            r.x == self.x * k,
            r.y == self.y * k,
    {
        V2 { x: self.x * k, y: self.y * k }
    }

    /// Component-wise floor division by a positive scalar.
    pub fn div_floor(self, k: Coord) -> (r: V2)
        requires
            k > 0,
            i32::MIN as int <= (self.x as int) / (k as int),
            i32::MIN as int <= (self.y as int) / (k as int),
        ensures
            r.x == (self.x as int) / (k as int),
            r.y == (self.y as int) / (k as int),
    {
        V2 { x: div_floor(self.x, k), y: div_floor(self.y, k) }
    }

    pub fn extend(self, z: Coord) -> (r: V3)
        ensures
            r == (V3 { x: self.x, y: self.y, z }),
    {
        V3 { x: self.x, y: self.y, z }
    }
}

impl V3 {
    pub fn new(x: Coord, y: Coord, z: Coord) -> (r: V3)
        ensures
            r == (V3 { x, y, z }),
    {
        V3 { x, y, z }
    }

    pub open spec fn spec_plus(self, o: V3) -> V3 {
        V3 {
            x: (self.x + o.x) as i32,
            y: (self.y + o.y) as i32,
            z: (self.z + o.z) as i32,
        }
    }

    pub fn plus(self, o: V3) -> (r: V3)
        requires
            i32::MIN <= self.x + o.x <= i32::MAX,
            i32::MIN <= self.y + o.y <= i32::MAX,
            i32::MIN <= self.z + o.z <= i32::MAX,
        ensures
            r == self.spec_plus(o),
    {
        V3 { x: self.x + o.x, y: self.y + o.y, z: self.z + o.z }
    }

    pub open spec fn spec_minus(self, o: V3) -> V3 {
        V3 {
            x: (self.x - o.x) as i32,
            y: (self.y - o.y) as i32,
            z: (self.z - o.z) as i32,
        }
    }

    pub fn minus(self, o: V3) -> (r: V3)
        requires
            i32::MIN <= self.x - o.x <= i32::MAX,
            i32::MIN <= self.y - o.y <= i32::MAX,
            i32::MIN <= self.z - o.z <= i32::MAX,
        ensures
            r == self.spec_minus(o),
    {
        V3 { x: self.x - o.x, y: self.y - o.y, z: self.z - o.z }
    }

    /// Drops the z component.
    pub fn reduce(self) -> (r: V2)
        ensures
            r == (V2 { x: self.x, y: self.y }),
    {
        V2 { x: self.x, y: self.y }
    }
}

/// A half-open 3D box `[min, max)`.
#[derive(Clone, Copy, PartialEq, Eq, Structural, Debug)]
pub struct Region {
    pub min: V3,
    pub max: V3,
}

/// A half-open 2D rectangle `[min, max)`.
#[derive(Clone, Copy, PartialEq, Eq, Structural, Debug)]
pub struct Region2 {
    pub min: V2,
    pub max: V2,
}

impl Region {
    pub fn new(min: V3, max: V3) -> (r: Region)
        ensures
            r == (Region { min, max }),
    {
        Region { min, max }
    }

    pub open spec fn contains(self, p: V3) -> bool {
        self.min.x <= p.x < self.max.x && self.min.y <= p.y < self.max.y && self.min.z <= p.z
            < self.max.z
    }

    pub open spec fn is_empty(self) -> bool {
        self.min.x >= self.max.x || self.min.y >= self.max.y || self.min.z >= self.max.z
    }

    /// Whether the two boxes share at least one cell.
    pub open spec fn spec_overlaps(self, o: Region) -> bool {
        !self.is_empty() && !o.is_empty() && self.min.x < o.max.x && o.min.x < self.max.x
            && self.min.y < o.max.y && o.min.y < self.max.y && self.min.z < o.max.z && o.min.z
            < self.max.z
    }

    pub fn overlaps(self, o: Region) -> (r: bool)
        ensures
            r == self.spec_overlaps(o),
    {
        self.min.x < self.max.x && self.min.y < self.max.y && self.min.z < self.max.z
            && o.min.x < o.max.x && o.min.y < o.max.y && o.min.z < o.max.z && self.min.x < o.max.x
            && o.min.x < self.max.x && self.min.y < o.max.y && o.min.y < self.max.y && self.min.z
            < o.max.z && o.min.z < self.max.z
    }

    /// A point contained in both boxes witnesses that they overlap.
    pub proof fn lemma_overlap_witness(self, o: Region, p: V3)
        requires
            self.contains(p),
            o.contains(p),
        ensures
            self.spec_overlaps(o),
    {
    }

    /// Overlapping boxes share the cell built from the larger minima.
    pub proof fn lemma_overlap_point(self, o: Region) -> (p: V3)
        requires
            self.spec_overlaps(o),
        ensures
            self.contains(p),
            o.contains(p),
    {
        V3 {
            x: if self.min.x >= o.min.x {
                self.min.x
            } else {
                o.min.x
            },
            y: if self.min.y >= o.min.y {
                self.min.y
            } else {
                o.min.y
            },
            z: if self.min.z >= o.min.z {
                self.min.z
            } else {
                o.min.z
            },
        }
    }
}

impl Region2 {
    pub fn new(min: V2, max: V2) -> (r: Region2)
        ensures
            r == (Region2 { min, max }),
    {
        Region2 { min, max }
    }

    pub open spec fn contains(self, p: V2) -> bool {
        self.min.x <= p.x < self.max.x && self.min.y <= p.y < self.max.y
    }

    pub fn contains_exec(self, p: V2) -> (r: bool)
        ensures
            r == self.contains(p),
    {
        self.min.x <= p.x && p.x < self.max.x && self.min.y <= p.y && p.y < self.max.y
    }

    pub open spec fn is_empty(self) -> bool {
        self.min.x >= self.max.x || self.min.y >= self.max.y
    }

    /// Row-major index of `p` within the rectangle.
    pub open spec fn spec_index_of(self, p: V2) -> int {
        (p.y - self.min.y) * (self.max.x - self.min.x) + (p.x - self.min.x)
    }

    pub fn index_of(self, p: V2) -> (r: usize)
        requires
            self.contains(p),
            self.max.x - self.min.x <= 0x4000,
            self.max.y - self.min.y <= 0x4000,
        ensures
            r == self.spec_index_of(p),
            r < (self.max.x - self.min.x) * (self.max.y - self.min.y),
    {
        let dy: i64 = p.y as i64 - self.min.y as i64;
        let dx: i64 = p.x as i64 - self.min.x as i64;
        let w: i64 = self.max.x as i64 - self.min.x as i64;
        let h: i64 = self.max.y as i64 - self.min.y as i64;
        proof {
            assert(0 <= dy * w && dy * w + dx < h * w && h * w <= 0x10000000) by (nonlinear_arith)
                requires
                    0 <= dy < h <= 0x4000,
                    0 <= dx < w <= 0x4000,
            ;
        }
        (dy * w + dx) as usize
    }
}

/// For an `i32` dividend and positive divisor, the floor quotient stays in
/// `i32` range.
pub proof fn lemma_div_in_i32_range(x: int, b: int)
    requires
        b > 0,
        i32::MIN <= x <= i32::MAX,
    ensures
        i32::MIN as int <= x / b <= i32::MAX,
{
    vstd::arithmetic::div_mod::lemma_fundamental_div_mod(x, b);
    vstd::arithmetic::div_mod::lemma_mod_bound(x, b);
    let q = x / b;
    let r = x % b;
    assert(x >= 0 ==> 0 <= q <= x) by (nonlinear_arith)
        requires
            x == b * q + r,
            0 <= r < b,
    ;
    assert(x < 0 ==> x <= q < 0 || q == 0) by (nonlinear_arith)
        requires
            x == b * q + r,
            0 <= r < b,
    ;
}

/// The chunk that contains a tile-plane position.
pub open spec fn spec_chunk_of(p: V2) -> V2 {
    V2 { x: ((p.x as int) / (CHUNK_SIZE as int)) as i32, y: ((p.y as int) / (CHUNK_SIZE as int)) as i32 }
}

pub fn chunk_of(p: V2) -> (r: V2)
    ensures
        r == spec_chunk_of(p),
{
    proof {
        lemma_div_in_i32_range(p.x as int, CHUNK_SIZE as int);
        lemma_div_in_i32_range(p.y as int, CHUNK_SIZE as int);
    }
    p.div_floor(CHUNK_SIZE)
}

/// The rectangle of chunks a 3D box touches: component-wise floor of the
/// minimum and ceiling of the maximum, in chunk units.
pub open spec fn spec_chunk_range(b: Region) -> Region2 {
    Region2 {
        min: V2 {
            x: ((b.min.x as int) / (CHUNK_SIZE as int)) as i32,
            y: ((b.min.y as int) / (CHUNK_SIZE as int)) as i32,
        },
        max: V2 {
            x: (((b.max.x + CHUNK_SIZE - 1) as int) / (CHUNK_SIZE as int)) as i32,
            y: (((b.max.y + CHUNK_SIZE - 1) as int) / (CHUNK_SIZE as int)) as i32,
        },
    }
}

pub fn chunk_range(b: Region) -> (r: Region2)
    requires
        b.max.x <= i32::MAX - CHUNK_SIZE,
        b.max.y <= i32::MAX - CHUNK_SIZE,
    ensures
        r == spec_chunk_range(b),
{
    proof {
        lemma_div_in_i32_range(b.min.x as int, CHUNK_SIZE as int);
        lemma_div_in_i32_range(b.min.y as int, CHUNK_SIZE as int);
        lemma_div_in_i32_range((b.max.x + CHUNK_SIZE - 1) as int, CHUNK_SIZE as int);
        lemma_div_in_i32_range((b.max.y + CHUNK_SIZE - 1) as int, CHUNK_SIZE as int);
    }
    Region2 {
        min: V2 {
            x: div_floor(b.min.x, CHUNK_SIZE),
            y: div_floor(b.min.y, CHUNK_SIZE),
        },
        max: V2 {
            x: div_floor(b.max.x + CHUNK_SIZE - 1, CHUNK_SIZE),
            y: div_floor(b.max.y + CHUNK_SIZE - 1, CHUNK_SIZE),
        },
    }
}

/// Any cell of a box lies in a chunk of the box's chunk range.
pub proof fn lemma_chunk_range_covers(b: Region, p: V3)
    requires
        b.contains(p),
        b.max.x <= i32::MAX - CHUNK_SIZE,
        b.max.y <= i32::MAX - CHUNK_SIZE,
    ensures
        spec_chunk_range(b).contains(spec_chunk_of(V2 { x: p.x, y: p.y })),
{
    lemma_chunk_axis(b.min.x as int, b.max.x as int, p.x as int);
    lemma_chunk_axis(b.min.y as int, b.max.y as int, p.y as int);
}

proof fn lemma_chunk_axis(lo: int, hi: int, v: int)
    requires
        lo <= v < hi,
        hi <= i32::MAX - CHUNK_SIZE + 1,
    ensures
        lo / (CHUNK_SIZE as int) <= v / (CHUNK_SIZE as int),
        v / (CHUNK_SIZE as int) < (hi + CHUNK_SIZE - 1) / (CHUNK_SIZE as int),
{
    let c = CHUNK_SIZE as int;
    vstd::arithmetic::div_mod::lemma_div_is_ordered(lo, v, c);
    assert(v + 1 <= hi);
    vstd::arithmetic::div_mod::lemma_div_is_ordered(v + c, hi + c - 1, c);
    assert(v / c + 1 == (v + 1 * c) / c) by {
        vstd::arithmetic::div_mod::lemma_hoist_over_denominator(v, 1, c as nat);
    }
}

/// Packs a chunk position into a single map key, injectively.
pub open spec fn spec_pack_v2(p: V2) -> u64 {
    (((p.x as u32) as u64) * 0x100000000 + ((p.y as u32) as u64)) as u64
}

pub fn pack_v2(p: V2) -> (r: u64)
    ensures
        r == spec_pack_v2(p),
{
    ((p.x as u32) as u64) * 0x100000000 + ((p.y as u32) as u64)
}

/// Packing is injective: equal keys mean equal positions.
pub proof fn lemma_pack_v2_injective(a: V2, b: V2)
    requires
        spec_pack_v2(a) == spec_pack_v2(b),
    ensures
        a == b,
{
    let ax = a.x;
    let ay = a.y;
    let bx = b.x;
    let by = b.y;
    assert(((ax as u32) as u64) * 0x100000000 + ((ay as u32) as u64) == ((bx as u32) as u64)
        * 0x100000000 + ((by as u32) as u64) ==> ax == bx && ay == by) by (bit_vector);
}

} // verus!
