//! Deterministic chunked terrain generation for the forest biome.
//!
//! Every value is a pure function of the per-plane seed, the plane's stable
//! id and the chunk position: per-chunk summaries (heightmap, cave walls,
//! tree and treasure offsets) are derived through a seeded mixing function,
//! cached by `(plane, chunk)`, and materialized into a block array plus a
//! structure list.  Regenerating a chunk therefore always yields the same
//! bytes, also after a cache flush and reload.

pub mod provider;

use vstd::prelude::*;
use crate::types::{BlockId, TemplateId, StableId};
use crate::geom::{V2, V3, spec_pack_v2, pack_v2};
use crate::vec_map::VecMap;
use crate::CHUNK_SIZE;
use crate::CHUNK_TOTAL;

verus! {

broadcast use vstd::std_specs::vec::group_vec_axioms;

/// Vertices per chunk side (one more than cells).
pub const GRID: i32 = 17;

/// Cave layers per chunk: half the chunk height.
pub const LAYERS: u8 = 8;

/// The sentinel cell key meaning "all four corners outside the raised
/// area": no cave blocks are emitted for it.
pub const OUTSIDE_KEY: u8 = 40;

/// Pinned anchor: the super-heightmap value at the origin chunk.
pub const ORIGIN_SUPER_HEIGHT: u8 = 98;

// ------------------------------------------------------------------
// seeded mixing

/// One round of 64-bit mixing (splitmix-style).
pub open spec fn spec_mix_round(z0: u64) -> u64 {
    let z1 = crate::wrapping_mul_u64(z0 ^ (z0 >> 30), 0xBF58476D1CE4E5B9);
    let z2 = crate::wrapping_mul_u64(z1 ^ (z1 >> 27), 0x94D049BB133111EB);
    z2 ^ (z2 >> 31)
}

/// The derived 64-bit value for a seed and three coordinates.
pub open spec fn spec_mix(seed: u64, a: u64, b: u64, c: u64) -> u64 {
    spec_mix_round(
        seed ^ spec_mix_round(a ^ spec_mix_round(b ^ spec_mix_round(c ^ 0x9E3779B97F4A7C15))),
    )
}

fn mix_round(z0: u64) -> (r: u64)
    ensures
        r == spec_mix_round(z0),
{
    let z1 = (z0 ^ (z0 >> 30)).wrapping_mul(0xBF58476D1CE4E5B9);
    let z2 = (z1 ^ (z1 >> 27)).wrapping_mul(0x94D049BB133111EB);
    z2 ^ (z2 >> 31)
}

/// Derives a fresh pseudo-random value from the seed and coordinates; the
/// same arguments always give the same value.
pub fn mix(seed: u64, a: u64, b: u64, c: u64) -> (r: u64)
    ensures
        r == spec_mix(seed, a, b, c),
{
    mix_round(seed ^ mix_round(a ^ mix_round(b ^ mix_round(c ^ 0x9E3779B97F4A7C15))))
}

/// Per-plane seed word from the four seed limbs.
pub open spec fn spec_seed_word(seed: [u32; 4]) -> u64 {
    (seed[0] as u64) ^ ((seed[1] as u64) << 16) ^ ((seed[2] as u64) << 32) ^ ((seed[3]
        as u64) << 48)
}

pub fn seed_word(seed: [u32; 4]) -> (r: u64)
    ensures
        r == spec_seed_word(seed),
{
    (seed[0] as u64) ^ ((seed[1] as u64) << 16) ^ ((seed[2] as u64) << 32) ^ ((seed[3]
        as u64) << 48)
}

/// Folds a chunk position into mixing coordinates.
pub open spec fn spec_coord(c: i32) -> u64 {
    (c as u32) as u64
}

pub fn coord(c: i32) -> (r: u64)
    ensures
        r == spec_coord(c),
{
    (c as u32) as u64
}

// ------------------------------------------------------------------
// summaries and the cache

/// Per-chunk persistent generation payload.
pub struct ChunkSummary {
    pub heightmap: Vec<u8>,
    pub cave_walls: Vec<bool>,
    pub tree_offsets: Vec<V2>,
    pub treasure_offsets: Vec<Vec<V2>>,
}

/// Per-superchunk persistent payload: the coarse height levels.
pub struct SuperchunkSummary {
    pub ds_levels: Vec<u8>,
}

/// In-memory summary cache keyed by `(plane stable id, chunk position)`.
/// The host persists the summaries `generate_summary` returns and restores
/// them with `insert_loaded`; since generation is a pure function of seed,
/// plane and position, a restored and a regenerated summary agree.
pub struct Cache<T> {
    pub planes: VecMap<VecMap<T>>,
}

impl<T> Cache<T> {
    pub open spec fn spec_get(self, pid: StableId, pos: V2) -> Option<T> {
        match self.planes.spec_get(pid) {
            Some(pl) => pl.spec_get(spec_pack_v2(pos)),
            None => None,
        }
    }

    pub open spec fn wf(self) -> bool {
        &&& self.planes.wf()
        &&& forall|pid: StableId|
            match #[trigger] self.planes.spec_get(pid) {
                Some(pl) => pl.wf(),
                None => true,
            }
    }

    pub fn new() -> (r: Cache<T>)
        ensures
            r.wf(),
            forall|pid: StableId, pos: V2| #[trigger] r.spec_get(pid, pos) == None::<T>,
    {
        Cache { planes: VecMap::new() }
    }

    /// Whether the summary for `(pid, pos)` is present.
    pub fn load(&self, pid: StableId, pos: V2) -> (r: bool)
        requires
            self.wf(),
        ensures
            r == (self.spec_get(pid, pos) is Some),
    {
        match self.planes.get(pid) {
            Some(pl) => pl.contains_key(pack_v2(pos)),
            None => false,
        }
    }

    pub fn get(&self, pid: StableId, pos: V2) -> (r: Option<&T>)
        requires
            self.wf(),
        ensures
            match r {
                Some(v) => self.spec_get(pid, pos) == Some(*v),
                None => self.spec_get(pid, pos) == None::<T>,
            },
    {
        match self.planes.get(pid) {
            Some(pl) => pl.get(pack_v2(pos)),
            None => None,
        }
    }

    /// Stores a freshly generated summary.
    pub fn put(&mut self, pid: StableId, pos: V2, value: T)
        requires
            old(self).wf(),
        ensures
            final(self).wf(),
            final(self).spec_get(pid, pos) == Some(value),
            forall|p2: StableId, c2: V2|
                p2 != pid || c2 != pos ==> #[trigger] final(self).spec_get(p2, c2) == old(
                    self,
                ).spec_get(p2, c2),
    {
        let mut pl: VecMap<T> = match self.planes.take(pid) {
            Some(pl) => pl,
            None => VecMap::new(),
        };
        proof {
            assert(old(self).wf());
        }
        pl.insert(pack_v2(pos), value);
        self.planes.insert(pid, pl);
        proof {
            assert forall|p2: StableId, c2: V2|
                p2 != pid || c2 != pos implies #[trigger] self.spec_get(p2, c2) == old(
                self,
            ).spec_get(p2, c2) by {
                if p2 == pid {
                    if spec_pack_v2(c2) == spec_pack_v2(pos) {
                        crate::geom::lemma_pack_v2_injective(c2, pos);
                    }
                }
            }
            assert forall|p2: StableId| match #[trigger] self.planes.spec_get(p2) {
                Some(pl2) => pl2.wf(),
                None => true,
            } by {
                if p2 != pid {
                    assert(self.planes.spec_get(p2) == old(self).planes.spec_get(p2));
                    assert(match old(self).planes.spec_get(p2) {
                        Some(pl2) => pl2.wf(),
                        None => true,
                    });
                }
            }
        }
    }

    /// Restores a previously persisted summary.
    pub fn insert_loaded(&mut self, pid: StableId, pos: V2, value: T)
        requires
            old(self).wf(),
        ensures
            final(self).wf(),
            final(self).spec_get(pid, pos) == Some(value),
            forall|p2: StableId, c2: V2|
                p2 != pid || c2 != pos ==> #[trigger] final(self).spec_get(p2, c2) == old(
                    self,
                ).spec_get(p2, c2),
    {
        self.put(pid, pos, value)
    }
}

// ------------------------------------------------------------------
// generated values

/// Height of vertex `(vx, vy)` of chunk `cpos`: the chunk's coarse base
/// height plus a small per-vertex offset.
pub open spec fn spec_vertex_height(seed: u64, pid: StableId, cpos: V2, vx: int, vy: int) -> u8 {
    let base = spec_super_height(seed, pid, cpos);
    let jitter = spec_mix(
        seed ^ pid,
        spec_pack_v2(cpos),
        (vx + 32) as u64,
        (vy + 32) as u64,
    ) % 7;
    if base + jitter > 255 {
        255u8
    } else {
        (base + jitter) as u8
    }
}

/// Coarse per-chunk height; the origin chunk is pinned.
pub open spec fn spec_super_height(seed: u64, pid: StableId, cpos: V2) -> u8 {
    if cpos == (V2 { x: 0, y: 0 }) {
        ORIGIN_SUPER_HEIGHT
    } else {
        (90 + spec_mix(seed ^ pid, 1, spec_pack_v2(cpos), 0) % 24) as u8
    }
}

/// Cutoff height for a cave layer.
pub open spec fn spec_cutoff(layer: u8) -> u8 {
    (layer * 2 + 100) as u8
}

/// Height cutoff separating a cave layer from the terrain above it.
pub fn cutoff(layer: u8) -> (r: u8)
    requires
        layer < 64,
    ensures
        r == spec_cutoff(layer),
{
    layer * 2 + 100
}

/// Whether vertex `(vx, vy)` of layer `layer` is a cave wall: only vertices
/// inside the raised area can be walls, picked by the seeded mix.
pub open spec fn spec_cave_wall(
    seed: u64,
    pid: StableId,
    cpos: V2,
    layer: u8,
    vx: int,
    vy: int,
) -> bool {
    &&& spec_vertex_height(seed, pid, cpos, vx, vy) >= spec_cutoff(layer)
    &&& spec_mix(
        seed ^ pid ^ ((layer as u64) << 56),
        2,
        spec_pack_v2(cpos),
        (vx + 32 + 64 * (vy + 32)) as u64,
    ) % 3 == 0
}

pub fn super_height(seed: u64, pid: StableId, cpos: V2) -> (r: u8)
    ensures
        r == spec_super_height(seed, pid, cpos),
{
    if cpos.x == 0 && cpos.y == 0 {
        ORIGIN_SUPER_HEIGHT
    } else {
        let m = mix(seed ^ pid, 1, pack_v2(cpos), 0) % 24;
        (90 + m) as u8
    }
}

pub fn vertex_height(seed: u64, pid: StableId, cpos: V2, vx: i32, vy: i32) -> (r: u8)
    requires
        0 <= vx < GRID,
        0 <= vy < GRID,
    ensures
        r == spec_vertex_height(seed, pid, cpos, vx as int, vy as int),
{
    let base = super_height(seed, pid, cpos);
    let jitter = mix(seed ^ pid, pack_v2(cpos), (vx + 32) as u64, (vy + 32) as u64) % 7;
    if base as u64 + jitter > 255 {
        255
    } else {
        (base as u64 + jitter) as u8
    }
}

pub fn cave_wall(seed: u64, pid: StableId, cpos: V2, layer: u8, vx: i32, vy: i32) -> (r: bool)
    requires
        layer < LAYERS,
        0 <= vx < GRID,
        0 <= vy < GRID,
    ensures
        r == spec_cave_wall(seed, pid, cpos, layer, vx as int, vy as int),
{
    let h = vertex_height(seed, pid, cpos, vx, vy);
    if h < cutoff(layer) {
        return false;
    }
    let m = mix(
        seed ^ pid ^ ((layer as u64) << 56),
        2,
        pack_v2(cpos),
        (vx + 32 + 64 * (vy + 32)) as u64,
    );
    m % 3 == 0
}

// ------------------------------------------------------------------
// cell keys

/// Key digit for one vertex of a cell: 1 outside the raised area, 2 inside
/// and open, 0 a cave wall.
#[verifier::opaque]
pub open spec fn spec_vertex_key(
    seed: u64,
    pid: StableId,
    cpos: V2,
    layer: u8,
    vx: int,
    vy: int,
) -> u8 {
    if spec_vertex_height(seed, pid, cpos, vx, vy) < spec_cutoff(layer) {
        1
    } else if !spec_cave_wall(seed, pid, cpos, layer, vx, vy) {
        2
    } else {
        0
    }
}

pub fn get_vertex_key(seed: u64, pid: StableId, cpos: V2, layer: u8, vx: i32, vy: i32) -> (r: u8)
    requires
        layer < LAYERS,
        0 <= vx < GRID,
        0 <= vy < GRID,
    ensures
        r == spec_vertex_key(seed, pid, cpos, layer, vx as int, vy as int),
        r <= 2,
{
    proof {
        reveal(spec_vertex_key);
    }
    if vertex_height(seed, pid, cpos, vx, vy) < cutoff(layer) {
        1
    } else if !cave_wall(seed, pid, cpos, layer, vx, vy) {
        2
    } else {
        0
    }
}

/// The cell's cave key (base 3) and top key (base 2), accumulating the four
/// corners in the order `(0,1), (1,1), (1,0), (0,0)`.
pub open spec fn spec_cell_keys(seed: u64, pid: StableId, cpos: V2, layer: u8, x: int, y: int) -> (
    u8,
    u8,
) {
    let k01 = spec_vertex_key(seed, pid, cpos, layer, x + 0, y + 1);
    let k11 = spec_vertex_key(seed, pid, cpos, layer, x + 1, y + 1);
    let k10 = spec_vertex_key(seed, pid, cpos, layer, x + 1, y + 0);
    let k00 = spec_vertex_key(seed, pid, cpos, layer, x + 0, y + 0);
    let cave = ((k01 * 3 + k11) * 3 + k10) * 3 + k00;
    let top = (((if k01 != 1 {
        1int
    } else {
        0int
    }) * 2 + (if k11 != 1 {
        1int
    } else {
        0int
    })) * 2 + (if k10 != 1 {
        1int
    } else {
        0int
    })) * 2 + (if k00 != 1 {
        1int
    } else {
        0int
    });
    (cave as u8, top as u8)
}

/// Cave and top keys of cell `(x, y)` on `layer`.
#[verifier::rlimit(100)]
pub fn get_cell_keys(seed: u64, pid: StableId, cpos: V2, layer: u8, x: i32, y: i32) -> (r: (
    u8,
    u8,
))
    requires
        layer < LAYERS,
        0 <= x < CHUNK_SIZE,
        0 <= y < CHUNK_SIZE,
    ensures
        r == spec_cell_keys(seed, pid, cpos, layer, x as int, y as int),
{
    let k01 = get_vertex_key(seed, pid, cpos, layer, x, y + 1);
    let k11 = get_vertex_key(seed, pid, cpos, layer, x + 1, y + 1);
    let k10 = get_vertex_key(seed, pid, cpos, layer, x + 1, y);
    let k00 = get_vertex_key(seed, pid, cpos, layer, x, y);
    let cave = ((k01 * 3 + k11) * 3 + k10) * 3 + k00;
    let top = (((if k01 != 1 {
        1u8
    } else {
        0u8
    }) * 2 + (if k11 != 1 {
        1u8
    } else {
        0u8
    })) * 2 + (if k10 != 1 {
        1u8
    } else {
        0u8
    })) * 2 + (if k00 != 1 {
        1u8
    } else {
        0u8
    });
    (cave, top)
}

} // verus!
