//! The forest-biome provider: builds per-chunk summaries through the cache
//! and materializes them into a block array plus a structure list.  The
//! result is a pure function of the seed, the plane and the chunk position.

use vstd::prelude::*;
use crate::types::{BlockId, TemplateId, StableId};
use crate::geom::{V2, V3, spec_pack_v2, pack_v2};
use crate::terrain_gen::{
    Cache, ChunkSummary, SuperchunkSummary, spec_mix, mix, spec_cell_keys, get_cell_keys,
    spec_vertex_height, vertex_height, spec_cave_wall, cave_wall, spec_cutoff, cutoff,
    spec_seed_word, seed_word, GRID, LAYERS, OUTSIDE_KEY,
};
use crate::CHUNK_SIZE;
use crate::CHUNK_TOTAL;

verus! {

broadcast use vstd::std_specs::vec::group_vec_axioms;

/// Static id tables the generator selects from, resolved by the host from
/// the block and template name tables.
pub struct GenData {
    pub grass_ids: Vec<BlockId>,
    pub cave_z0_grass_ids: Vec<BlockId>,
    pub cave_z0_dirt_ids: Vec<BlockId>,
    pub cave_z1_ids: Vec<BlockId>,
    pub cave_top_ids: Vec<BlockId>,
    pub tree_template: TemplateId,
    pub rock_template: TemplateId,
    pub junk_templates: Vec<TemplateId>,
}

impl GenData {
    /// The table lengths alone: one block per grass variant, per cave key
    /// (base-3 over four digits) and per top key (base-2), three treasure
    /// templates.
    pub open spec fn shape_ok(self) -> bool {
        &&& self.grass_ids@.len() == 4
        &&& self.cave_z0_grass_ids@.len() == 81
        &&& self.cave_z0_dirt_ids@.len() == 81
        &&& self.cave_z1_ids@.len() == 81
        &&& self.cave_top_ids@.len() == 16
        &&& self.junk_templates@.len() == 3
    }

    /// Table shapes: one block per grass variant, per cave key (base-3 over
    /// four digits) and per top key (base-2), three treasure templates; all
    /// block ids below `nblocks`.
    pub open spec fn wf(self, nblocks: int) -> bool {
        &&& self.grass_ids@.len() == 4
        &&& self.cave_z0_grass_ids@.len() == 81
        &&& self.cave_z0_dirt_ids@.len() == 81
        &&& self.cave_z1_ids@.len() == 81
        &&& self.cave_top_ids@.len() == 16
        &&& self.junk_templates@.len() == 3
        &&& forall|j: int| 0 <= j < 4 ==> (self.grass_ids@[j] as int) < nblocks
        &&& forall|j: int| 0 <= j < 81 ==> (self.cave_z0_grass_ids@[j] as int) < nblocks
        &&& forall|j: int| 0 <= j < 81 ==> (self.cave_z0_dirt_ids@[j] as int) < nblocks
        &&& forall|j: int| 0 <= j < 81 ==> (self.cave_z1_ids@[j] as int) < nblocks
        &&& forall|j: int| 0 <= j < 16 ==> (self.cave_top_ids@[j] as int) < nblocks
    }
}

/// One structure the generator asks the world to place.
#[derive(Clone, Copy, PartialEq, Eq, Structural, Debug)]
pub struct GenStructure {
    pub pos: V3,
    pub template_id: TemplateId,
}

/// A generated chunk: its block array and the structures to place on it.
pub struct GenChunk {
    pub blocks: Vec<BlockId>,
    pub structures: Vec<GenStructure>,
}

// ------------------------------------------------------------------
// entrance pattern search

/// Code of one height cell for the pattern window: bit 0 set when the cell
/// is at or above the cutoff, bit 1 set when it is strictly more than two
/// below it; off-grid rows read as zero.
pub open spec fn spec_cell_code(
    seed: u64,
    pid: StableId,
    cpos: V2,
    cutoff_v: u8,
    x: int,
    y: int,
) -> u32 {
    if y < 0 {
        0
    } else {
        let v = spec_vertex_height(seed, pid, cpos, x, y);
        (if v >= cutoff_v {
            1int
        } else {
            0int
        } + if v + 2 < cutoff_v {
            2int
        } else {
            0int
        }) as u32
    }
}

/// The sliding 4x3 window accumulator after scanning column `x` of row `y`:
/// each step shifts two bits, clears the padding and merges the codes of
/// the three cells of the new column.
pub open spec fn spec_acc(seed: u64, pid: StableId, cpos: V2, cutoff_v: u8, x: int, y: int) -> u32
    decreases x + 1,
{
    if x < 0 {
        0
    } else {
        let prev = spec_acc(seed, pid, cpos, cutoff_v, x - 1, y);
        let shifted = (prev << 2) & (!((3u32 << 8) | (3u32 << 18) | (3u32 << 28)));
        shifted | (spec_cell_code(seed, pid, cpos, cutoff_v, x, y - 2) << 20) | (
        spec_cell_code(seed, pid, cpos, cutoff_v, x, y - 1) << 10) | spec_cell_code(
            seed,
            pid,
            cpos,
            cutoff_v,
            x,
            y,
        )
    }
}

/// The strict row-major scan order on grid positions.
pub open spec fn scan_lt(a: V2, b: V2) -> bool {
    a.y < b.y || (a.y == b.y && a.x < b.x)
}

/// Scans the height grid with the 4x3 window and returns, in strictly
/// increasing row-major scan order (hence without duplicates), every anchor
/// position whose window matches `bits` under `mask`.
#[verifier::rlimit(100)]
pub fn find_pattern(seed: u64, pid: StableId, cpos: V2, cutoff_v: u8, bits: u32, mask: u32) -> (r:
    Vec<V2>)
    ensures
        forall|k: int|
            #![trigger r@[k]]
            0 <= k < r@.len() ==> {
                let p = r@[k];
                &&& 3 <= p.x < GRID
                &&& 1 <= p.y < GRID
                &&& spec_acc(seed, pid, cpos, cutoff_v, p.x as int, p.y as int) & mask == bits
            },
        forall|x: int, y: int|
            #![trigger spec_acc(seed, pid, cpos, cutoff_v, x, y)]
            3 <= x < GRID && 1 <= y < GRID && spec_acc(seed, pid, cpos, cutoff_v, x, y) & mask
                == bits ==> contains_pos(r@, x, y),
        forall|k1: int, k2: int| 0 <= k1 < k2 < r@.len() ==> scan_lt(r@[k1], r@[k2]),
{
    let mut result: Vec<V2> = Vec::new();
    let mut y: i32 = 0;
    while y < GRID
        invariant
            0 <= y <= GRID,
            forall|k: int|
                #![trigger result@[k]]
                0 <= k < result@.len() ==> {
                    let p = result@[k];
                    &&& 3 <= p.x < GRID
                    &&& 1 <= p.y < GRID
                    &&& spec_acc(seed, pid, cpos, cutoff_v, p.x as int, p.y as int) & mask
                        == bits
                },
            forall|x2: int, y2: int|
                #![trigger spec_acc(seed, pid, cpos, cutoff_v, x2, y2)]
                3 <= x2 < GRID && 1 <= y2 < GRID && y2 < y && spec_acc(
                    seed,
                    pid,
                    cpos,
                    cutoff_v,
                    x2,
                    y2,
                ) & mask == bits ==> contains_pos(result@, x2, y2),
            forall|k1: int, k2: int|
                0 <= k1 < k2 < result@.len() ==> scan_lt(result@[k1], result@[k2]),
            forall|k: int| #![trigger result@[k]] 0 <= k < result@.len() ==> result@[k].y < y,
        decreases GRID - y,
    {
        let mut acc: u32 = 0;
        let mut x: i32 = 0;
        while x < GRID
            invariant
                0 <= y < GRID,
                0 <= x <= GRID,
                acc == spec_acc(seed, pid, cpos, cutoff_v, x - 1, y as int),
                forall|k: int|
                    #![trigger result@[k]]
                    0 <= k < result@.len() ==> {
                        let p = result@[k];
                        &&& 3 <= p.x < GRID
                        &&& 1 <= p.y < GRID
                        &&& spec_acc(seed, pid, cpos, cutoff_v, p.x as int, p.y as int) & mask
                            == bits
                    },
                forall|x2: int, y2: int|
                    #![trigger spec_acc(seed, pid, cpos, cutoff_v, x2, y2)]
                    3 <= x2 < GRID && 1 <= y2 < GRID && (y2 < y || (y2 == y && x2 < x))
                        && spec_acc(seed, pid, cpos, cutoff_v, x2, y2) & mask == bits
                        ==> contains_pos(result@, x2, y2),
                forall|k1: int, k2: int|
                    0 <= k1 < k2 < result@.len() ==> scan_lt(result@[k1], result@[k2]),
                forall|k: int|
                    #![trigger result@[k]]
                    0 <= k < result@.len() ==> result@[k].y < y || (result@[k].y == y
                        && result@[k].x < x),
            decreases GRID - x,
        {
            let c2 = cell_code(seed, pid, cpos, cutoff_v, x, y - 2);
            let c1 = cell_code(seed, pid, cpos, cutoff_v, x, y - 1);
            let c0 = cell_code(seed, pid, cpos, cutoff_v, x, y);
            acc = ((acc << 2) & !((3u32 << 8) | (3u32 << 18) | (3u32 << 28))) | (c2 << 20) | (
            c1 << 10) | c0;
            if x >= 3 && y >= 1 && acc & mask == bits {
                let ghost pre = result@;
                result.push(V2 { x, y });
                proof {
                    assert(result@ == pre.push(V2 { x, y }));
                    assert(result@[pre.len() as int] == (V2 { x, y }));
                    assert forall|k1: int, k2: int|
                        0 <= k1 < k2 < result@.len() implies scan_lt(result@[k1], result@[k2]) by {
                        if k2 == pre.len() {
                            assert(result@[k1] == pre[k1]);
                            assert(scan_lt(pre[k1], V2 { x, y }));
                        } else {
                            assert(result@[k1] == pre[k1] && result@[k2] == pre[k2]);
                        }
                    }
                    assert forall|x2: int, y2: int|
                        3 <= x2 < GRID && 1 <= y2 < GRID && (y2 < y || (y2 == y && x2 < x
                            + 1)) && spec_acc(seed, pid, cpos, cutoff_v, x2, y2) & mask
                            == bits implies contains_pos(result@, x2, y2) by {
                        if y2 < y || (y2 == y && x2 < x) {
                            assert(contains_pos(pre, x2, y2));
                            let k = choose|k: int|
                                0 <= k < pre.len() && pre[k] == (V2 {
                                    x: x2 as i32,
                                    y: y2 as i32,
                                });
                            assert(result@[k] == pre[k]);
                        } else {
                            assert(x2 == x as int && y2 == y as int);
                        }
                    }
                }
            }
            x += 1;
        }
        y += 1;
    }
    result
}

/// Membership of a scan position in the result list.
pub open spec fn contains_pos(s: Seq<V2>, x: int, y: int) -> bool {
    exists|k: int| 0 <= k < s.len() && s[k] == (V2 { x: x as i32, y: y as i32 })
}

fn cell_code(seed: u64, pid: StableId, cpos: V2, cutoff_v: u8, x: i32, y: i32) -> (r: u32)
    requires
        0 <= x < GRID,
        -2 <= y < GRID,
    ensures
        r == crate::terrain_gen::provider::spec_cell_code(
            seed,
            pid,
            cpos,
            cutoff_v,
            x as int,
            y as int,
        ),
{
    if y < 0 {
        0
    } else {
        let v = vertex_height(seed, pid, cpos, x, y);
        (if v >= cutoff_v {
            1u32
        } else {
            0u32
        }) + (if (v as u32) + 2 < cutoff_v as u32 {
            2u32
        } else {
            0u32
        })
    }
}

/// The entrance pattern: row 0 exactly level, row 1's inner columns
/// strictly below with outer columns at or above, row 2 unconstrained.
pub const ENTRANCE_PATTERN: u32 = 0b_00_01_01_00 << 10;

pub const ENTRANCE_MASK: u32 = (0b_10_11_11_10 << 10) | 0b_11_11_11_11;

/// Picks the entrance anchor for a layer: one of the pattern matches chosen
/// by the seeded mix, translated left and up to the window's anchor cell.
/// Returns `None` exactly when no window matches the entrance pattern.
pub fn place_entrance(seed: u64, pid: StableId, cpos: V2, cutoff_v: u8) -> (r: Option<V2>)
    ensures
        (r is None) == (forall|x: int, y: int|
            #![trigger spec_acc(seed, pid, cpos, cutoff_v, x, y)]
            3 <= x < GRID && 1 <= y < GRID ==> spec_acc(seed, pid, cpos, cutoff_v, x, y)
                & ENTRANCE_MASK != ENTRANCE_PATTERN),
        r is Some ==> exists|x: int, y: int|
            #![trigger spec_acc(seed, pid, cpos, cutoff_v, x, y)]
            {
                &&& 3 <= x < GRID
                &&& 1 <= y < GRID
                &&& spec_acc(seed, pid, cpos, cutoff_v, x, y) & ENTRANCE_MASK
                    == ENTRANCE_PATTERN
                &&& r->Some_0 == (V2 { x: (x - 2) as i32, y: (y - 1) as i32 })
            },
        r is Some ==> 1 <= r->Some_0.x < GRID - 2 && 0 <= r->Some_0.y < GRID - 1,
{
    let candidates = find_pattern(seed, pid, cpos, cutoff_v, ENTRANCE_PATTERN, ENTRANCE_MASK);
    if candidates.len() == 0 {
        proof {
            assert forall|x: int, y: int|
                #![trigger spec_acc(seed, pid, cpos, cutoff_v, x, y)]
                3 <= x < GRID && 1 <= y < GRID implies spec_acc(seed, pid, cpos, cutoff_v, x, y)
                & ENTRANCE_MASK != ENTRANCE_PATTERN by {
                if spec_acc(seed, pid, cpos, cutoff_v, x, y) & ENTRANCE_MASK
                    == ENTRANCE_PATTERN {
                    assert(contains_pos(candidates@, x, y));
                }
            }
        }
        None
    } else {
        let pick = (mix(seed ^ pid, 3, pack_v2(cpos), cutoff_v as u64) as usize) % candidates.len();
        let p = candidates[pick];
        proof {
            assert(spec_acc(seed, pid, cpos, cutoff_v, p.x as int, p.y as int) & ENTRANCE_MASK
                == ENTRANCE_PATTERN);
        }
        Some(V2 { x: p.x - 2, y: p.y - 1 })
    }
}

// ------------------------------------------------------------------
// summary construction

/// Tree and rock sample points of a chunk: a few seeded cells.
pub open spec fn spec_tree_offset(seed: u64, pid: StableId, cpos: V2, k: int) -> V2 {
    V2 {
        x: (spec_mix(seed ^ pid, 4, spec_pack_v2(cpos), (2 * k) as u64) % 16) as i32,
        y: (spec_mix(seed ^ pid, 4, spec_pack_v2(cpos), (2 * k + 1) as u64) % 16) as i32,
    }
}

pub open spec fn spec_tree_count(seed: u64, pid: StableId, cpos: V2) -> int {
    (spec_mix(seed ^ pid, 5, spec_pack_v2(cpos), 0) % 4) as int
}

/// Whether a treasure candidate survives the corner filter: all four cave
/// grid corners around the cell must be open floor.
pub open spec fn spec_treasure_ok(seed: u64, pid: StableId, cpos: V2, layer: u8, p: V2) -> bool {
    &&& !spec_cave_wall(seed, pid, cpos, layer, p.x as int, p.y as int)
    &&& !spec_cave_wall(seed, pid, cpos, layer, p.x as int, p.y as int + 1)
    &&& !spec_cave_wall(seed, pid, cpos, layer, p.x as int + 1, p.y as int + 1)
    &&& !spec_cave_wall(seed, pid, cpos, layer, p.x as int + 1, p.y as int)
}

pub open spec fn spec_treasure_candidate(
    seed: u64,
    pid: StableId,
    cpos: V2,
    layer: u8,
    k: int,
) -> V2 {
    V2 {
        x: (spec_mix(
            seed ^ pid ^ ((layer as u64) << 48),
            6,
            spec_pack_v2(cpos),
            (2 * k) as u64,
        ) % 16) as i32,
        y: (spec_mix(
            seed ^ pid ^ ((layer as u64) << 48),
            6,
            spec_pack_v2(cpos),
            (2 * k + 1) as u64,
        ) % 16) as i32,
    }
}

/// The filtered treasure offsets of a layer, over candidates `0 .. k`.
#[verifier::opaque]
pub open spec fn spec_treasure_offsets(
    seed: u64,
    pid: StableId,
    cpos: V2,
    layer: u8,
    k: int,
) -> Seq<V2>
    decreases k,
{
    if k <= 0 {
        Seq::empty()
    } else {
        let prefix = spec_treasure_offsets(seed, pid, cpos, layer, k - 1);
        let c = spec_treasure_candidate(seed, pid, cpos, layer, k - 1);
        if spec_treasure_ok(seed, pid, cpos, layer, c) {
            prefix.push(c)
        } else {
            prefix
        }
    }
}

/// Poisson-style sample points for this chunk's treasure on one layer,
/// filtered to open-floor cells.
pub struct Treasure {
    pub layer: u8,
}

impl Treasure {
    pub fn new(layer: u8) -> (r: Treasure)
        ensures
            r.layer == layer,
    {
        Treasure { layer }
    }

    /// The filtered offsets for this layer.
    pub fn offsets(&self, seed: u64, pid: StableId, cpos: V2) -> (r: Vec<V2>)
        requires
            self.layer < LAYERS,
        ensures
            r@ == spec_treasure_offsets(seed, pid, cpos, self.layer, 2),
    {
        treasure_offsets(seed, pid, cpos, self.layer)
    }
}

/// Number of treasure candidates drawn per layer.
pub const TREASURE_CANDIDATES: i32 = 2;

fn treasure_candidate(seed: u64, pid: StableId, cpos: V2, layer: u8, k: i32) -> (r: V2)
    requires
        0 <= k,
        k <= 16,
    ensures
        r == spec_treasure_candidate(seed, pid, cpos, layer, k as int),
        0 <= r.x < 16,
        0 <= r.y < 16,
{
    V2 {
        x: (mix(seed ^ pid ^ ((layer as u64) << 48), 6, pack_v2(cpos), (2 * k) as u64)
            % 16) as i32,
        y: (mix(seed ^ pid ^ ((layer as u64) << 48), 6, pack_v2(cpos), (2 * k + 1) as u64)
            % 16) as i32,
    }
}

fn treasure_offsets(seed: u64, pid: StableId, cpos: V2, layer: u8) -> (r: Vec<V2>)
    requires
        layer < LAYERS,
    ensures
        r@ == spec_treasure_offsets(seed, pid, cpos, layer, TREASURE_CANDIDATES as int),
{
    let mut out: Vec<V2> = Vec::new();
    proof {
        reveal(spec_treasure_offsets);
    }
    let mut k: i32 = 0;
    while k < TREASURE_CANDIDATES
        invariant
            layer < LAYERS,
            0 <= k <= TREASURE_CANDIDATES,
            out@ == spec_treasure_offsets(seed, pid, cpos, layer, k as int),
        decreases TREASURE_CANDIDATES - k,
    {
        proof {
            reveal(spec_treasure_offsets);
        }
        let c = treasure_candidate(seed, pid, cpos, layer, k);
        let ok = !cave_wall(seed, pid, cpos, layer, c.x, c.y) && !cave_wall(
            seed,
            pid,
            cpos,
            layer,
            c.x,
            c.y + 1,
        ) && !cave_wall(seed, pid, cpos, layer, c.x + 1, c.y + 1) && !cave_wall(
            seed,
            pid,
            cpos,
            layer,
            c.x + 1,
            c.y,
        );
        if ok {
            out.push(c);
        }
        k += 1;
    }
    out
}


// ------------------------------------------------------------------
// the provider

/// Chunks per superchunk side.
pub const SUPERCHUNK_SIZE: i32 = 8;

/// Block id at flat index `idx` of the chunk (`z * 256 + y * 16 + x`),
/// resolved by the layer stack: each cave layer writes its floor and wall
/// rows and a top row one level higher, later layers overwriting earlier
/// tops; the ground level grows grass where no cave covers it.
#[verifier::opaque]
pub open spec fn spec_block_at(
    seed: u64,
    pid: StableId,
    cpos: V2,
    gen: GenData,
    idx: int,
) -> BlockId {
    let x = idx % 16;
    let y = (idx / 16) % 16;
    let z = idx / 256;
    if z % 2 == 0 {
        let m = (z / 2) as u8;
        let keys = spec_cell_keys(seed, pid, cpos, m, x, y);
        if keys.0 != OUTSIDE_KEY {
            if m == 0 {
                gen.cave_z0_grass_ids@[keys.0 as int]
            } else {
                gen.cave_z0_dirt_ids@[keys.0 as int]
            }
        } else if z == 0 {
            gen.grass_ids@[(spec_mix(seed ^ pid, 7, spec_pack_v2(cpos), idx as u64) % 4) as int]
        } else {
            let below = spec_cell_keys(seed, pid, cpos, (m - 1) as u8, x, y);
            if below.0 != OUTSIDE_KEY {
                gen.cave_top_ids@[below.1 as int]
            } else {
                0
            }
        }
    } else {
        let m = (z / 2) as u8;
        let keys = spec_cell_keys(seed, pid, cpos, m, x, y);
        if keys.0 != OUTSIDE_KEY {
            gen.cave_z1_ids@[keys.0 as int]
        } else {
            0
        }
    }
}

/// Cell keys stay inside their tables: four base-3 digits of at most 2 and
/// four bits.
pub proof fn lemma_cell_key_bounds(seed: u64, pid: StableId, cpos: V2, layer: u8, x: int, y: int)
    ensures
        0 <= spec_cell_keys(seed, pid, cpos, layer, x, y).0 <= 80,
        0 <= spec_cell_keys(seed, pid, cpos, layer, x, y).1 <= 15,
{
    reveal(crate::terrain_gen::spec_vertex_key);
}

/// The tree and rock structures of a chunk.
pub open spec fn spec_tree_structs(seed: u64, pid: StableId, cpos: V2, gen: GenData) -> Seq<
    GenStructure,
> {
    Seq::new(
        spec_tree_count(seed, pid, cpos) as nat,
        |k: int|
            {
                let o = spec_tree_offset(seed, pid, cpos, k);
                let h = spec_vertex_height(seed, pid, cpos, o.x as int, o.y as int);
                let layer: int = if h < 100 {
                    0
                } else {
                    (h - 100) / 2 + 1
                };
                GenStructure {
                    pos: V3 { x: o.x, y: o.y, z: (layer * 2) as i32 },
                    template_id: if spec_mix(seed ^ pid, 8, spec_pack_v2(cpos), k as u64) % 3
                        < 2 {
                        gen.tree_template
                    } else {
                        gen.rock_template
                    },
                }
            },
    )
}

/// The treasure structures of one layer.
#[verifier::opaque]
pub open spec fn spec_layer_structs(
    seed: u64,
    pid: StableId,
    cpos: V2,
    gen: GenData,
    layer: u8,
) -> Seq<GenStructure> {
    let offsets = spec_treasure_offsets(seed, pid, cpos, layer, TREASURE_CANDIDATES as int);
    Seq::new(
        offsets.len(),
        |j: int|
            GenStructure {
                pos: V3 { x: offsets[j].x, y: offsets[j].y, z: (2 * (layer as int)) as i32 },
                template_id: gen.junk_templates@[(spec_mix(
                    seed ^ pid ^ ((layer as u64) << 40),
                    9,
                    spec_pack_v2(cpos),
                    j as u64,
                ) % 3) as int],
            },
    )
}

/// The treasure structures of the first `l` layers, concatenated.
pub open spec fn spec_treasure_structs(
    seed: u64,
    pid: StableId,
    cpos: V2,
    gen: GenData,
    l: int,
) -> Seq<GenStructure>
    decreases l,
{
    if l <= 0 {
        Seq::empty()
    } else {
        spec_treasure_structs(seed, pid, cpos, gen, l - 1) + spec_layer_structs(
            seed,
            pid,
            cpos,
            gen,
            (l - 1) as u8,
        )
    }
}

/// Everything `generate` places: trees and rocks, then each layer's
/// treasure in layer order.
pub open spec fn spec_structures(seed: u64, pid: StableId, cpos: V2, gen: GenData) -> Seq<
    GenStructure,
> {
    spec_tree_structs(seed, pid, cpos, gen) + spec_treasure_structs(
        seed,
        pid,
        cpos,
        gen,
        LAYERS as int,
    )
}

/// The full per-chunk summary the cache holds.
pub open spec fn spec_summary(seed: u64, pid: StableId, cpos: V2) -> (Seq<u8>, Seq<bool>) {
    (
        Seq::new(
            (GRID * GRID) as nat,
            |i: int| spec_vertex_height(seed, pid, cpos, i % (GRID as int), i / (GRID as int)),
        ),
        Seq::new(
            (LAYERS as int * GRID * GRID) as nat,
            |i: int|
                spec_cave_wall(
                    seed,
                    pid,
                    cpos,
                    (i / ((GRID * GRID) as int)) as u8,
                    (i % ((GRID * GRID) as int)) % (GRID as int),
                    (i % ((GRID * GRID) as int)) / (GRID as int),
                ),
        ),
    )
}

/// The deterministic, seeded, cached chunk generator.
pub struct Provider {
    pub gen: GenData,
    pub seed: [u32; 4],
    pub cache: Cache<ChunkSummary>,
    pub super_cache: Cache<SuperchunkSummary>,
}

impl Provider {
    /// The provider's derived seed word.
    pub open spec fn spec_seed(self) -> u64 {
        spec_seed_word(self.seed)
    }

    pub open spec fn wf(self) -> bool {
        &&& self.cache.wf()
        &&& self.super_cache.wf()
    }

    pub fn new(gen: GenData, seed: [u32; 4]) -> (r: Provider)
        ensures
            r.wf(),
            r.gen == gen,
            r.seed == seed,
    {
        Provider { gen, seed, cache: Cache::new(), super_cache: Cache::new() }
    }

    /// Builds the chunk's summary (heightmap and cave walls), stores it in
    /// the cache, and also materializes the superchunk's coarse levels.
    pub fn generate_summary(&mut self, pid: StableId, cpos: V2) -> (r: ChunkSummary)
        requires
            old(self).wf(),
        ensures
            final(self).wf(),
            final(self).gen == old(self).gen,
            final(self).seed == old(self).seed,
            r.heightmap@ == spec_summary(old(self).spec_seed(), pid, cpos).0,
            r.cave_walls@ == spec_summary(old(self).spec_seed(), pid, cpos).1,
            final(self).cache.spec_get(pid, cpos) is Some,
            final(self).cache.spec_get(pid, cpos)->Some_0.heightmap@ == spec_summary(
                old(self).spec_seed(),
                pid,
                cpos,
            ).0,
            final(self).cache.spec_get(pid, cpos)->Some_0.cave_walls@ == spec_summary(
                old(self).spec_seed(),
                pid,
                cpos,
            ).1,
    {
        let seed = seed_word(self.seed);
        let mut heightmap: Vec<u8> = Vec::new();
        let mut i: i32 = 0;
        while i < GRID * GRID
            invariant
                0 <= i <= GRID * GRID,
                heightmap@ == spec_summary(seed, pid, cpos).0.take(i as int),
                seed == spec_seed_word(self.seed),
            decreases GRID * GRID - i,
        {
            let h = vertex_height(seed, pid, cpos, i % GRID, i / GRID);
            heightmap.push(h);
            proof {
                assert(heightmap@ =~= spec_summary(seed, pid, cpos).0.take(i as int + 1));
            }
            i += 1;
        }
        proof {
            assert(spec_summary(seed, pid, cpos).0.take((GRID * GRID) as int) =~= spec_summary(
                seed,
                pid,
                cpos,
            ).0);
        }
        let mut cave_walls: Vec<bool> = Vec::new();
        let mut j: i32 = 0;
        while j < (LAYERS as i32) * GRID * GRID
            invariant
                0 <= j <= (LAYERS as i32) * GRID * GRID,
                cave_walls@ == spec_summary(seed, pid, cpos).1.take(j as int),
                seed == spec_seed_word(self.seed),
            decreases (LAYERS as i32) * GRID * GRID - j,
        {
            let layer = (j / (GRID * GRID)) as u8;
            let rem = j % (GRID * GRID);
            proof {
                assert(GRID * GRID == 289 && (LAYERS as i32) * GRID * GRID == 2312);
                assert(0 <= j / 289 < 8 && 0 <= j % 289 < 289) by (nonlinear_arith)
                    requires
                        0 <= j < 2312,
                ;
            }
            let wall = cave_wall(seed, pid, cpos, layer, rem % GRID, rem / GRID);
            cave_walls.push(wall);
            proof {
                assert(cave_walls@ =~= spec_summary(seed, pid, cpos).1.take(j as int + 1));
            }
            j += 1;
        }
        proof {
            assert(spec_summary(seed, pid, cpos).1.take(((LAYERS as i32) * GRID
                * GRID) as int) =~= spec_summary(seed, pid, cpos).1);
        }
        let mut tree_offsets: Vec<V2> = Vec::new();
        let count = (mix(seed ^ pid, 5, pack_v2(cpos), 0) % 4) as i32;
        let mut k: i32 = 0;
        while k < count
            invariant
                0 <= k <= count,
                count < 4,
            decreases count - k,
        {
            let o = V2 {
                x: (mix(seed ^ pid, 4, pack_v2(cpos), (2 * k) as u64) % 16) as i32,
                y: (mix(seed ^ pid, 4, pack_v2(cpos), (2 * k + 1) as u64) % 16) as i32,
            };
            tree_offsets.push(o);
            k += 1;
        }
        let mut treasure: Vec<Vec<V2>> = Vec::new();
        let mut l: u8 = 0;
        while l < LAYERS
            invariant
                0 <= l <= LAYERS,
                seed == spec_seed_word(self.seed),
            decreases LAYERS - l,
        {
            let t = Treasure::new(l);
            treasure.push(t.offsets(seed, pid, cpos));
            l += 1;
        }
        let summ = ChunkSummary {
            heightmap,
            cave_walls,
            tree_offsets,
            treasure_offsets: treasure,
        };
        let result = ChunkSummary {
            heightmap: clone_u8_vec(&summ.heightmap),
            cave_walls: clone_bool_vec(&summ.cave_walls),
            tree_offsets: Vec::new(),
            treasure_offsets: Vec::new(),
        };
        self.cache.put(pid, cpos, summ);
        result
    }

    /// The superchunk's coarse level grid, generated on demand.
    pub fn get_super_heightmap(&mut self, pid: StableId, scpos: V2) -> (r: Vec<u8>)
        requires
            old(self).wf(),
            -0x8000 <= scpos.x <= 0x8000,
            -0x8000 <= scpos.y <= 0x8000,
        ensures
            final(self).wf(),
            final(self).gen == old(self).gen,
            final(self).seed == old(self).seed,
            r@.len() == (SUPERCHUNK_SIZE + 1) * (SUPERCHUNK_SIZE + 1),
            forall|i: int|
                #![trigger r@[i]]
                0 <= i < r@.len() ==> r@[i] == crate::terrain_gen::spec_super_height(
                    old(self).spec_seed(),
                    pid,
                    V2 {
                        x: (scpos.x * SUPERCHUNK_SIZE + i % 9) as i32,
                        y: (scpos.y * SUPERCHUNK_SIZE + i / 9) as i32,
                    },
                ),
    {
        let seed = seed_word(self.seed);
        let mut levels: Vec<u8> = Vec::new();
        let side = SUPERCHUNK_SIZE + 1;
        let mut i: i32 = 0;
        while i < 81
            invariant
                side == SUPERCHUNK_SIZE + 1,
                0 <= i <= 81,
                levels@.len() == i,
                -0x8000 <= scpos.x <= 0x8000,
                -0x8000 <= scpos.y <= 0x8000,
                seed == spec_seed_word(self.seed),
                forall|j: int|
                    #![trigger levels@[j]]
                    0 <= j < i ==> levels@[j] == crate::terrain_gen::spec_super_height(
                        seed,
                        pid,
                        V2 {
                            x: (scpos.x * SUPERCHUNK_SIZE + j % 9) as i32,
                            y: (scpos.y * SUPERCHUNK_SIZE + j / 9) as i32,
                        },
                    ),
            decreases 81 - i,
        {
            proof {
                assert(0 <= i % side < side && 0 <= i / side < side) by (nonlinear_arith)
                    requires
                        0 <= i < 81,
                        side == 9,
                ;
            }
            let cx = scpos.x * SUPERCHUNK_SIZE + i % side;
            let cy = scpos.y * SUPERCHUNK_SIZE + i / side;
            let h = super_height_at(seed, pid, V2 { x: cx, y: cy });
            levels.push(h);
            proof {
                assert(i % side == i % 9 && i / side == i / 9);
            }
            i += 1;
        }
        self.super_cache.put(pid, scpos, SuperchunkSummary { ds_levels: clone_u8_vec(&levels) });
        levels
    }

    /// Materializes the chunk: 4096 blocks resolved per cell through the
    /// layer stack, then trees, rocks and treasure.  The result is a pure
    /// function of the seed, the plane and the chunk position, so repeated
    /// calls agree byte for byte.
    #[verifier::rlimit(100)]
    pub fn generate(&mut self, pid: StableId, cpos: V2) -> (r: GenChunk)
        requires
            old(self).wf(),
            old(self).gen.shape_ok(),
        ensures
            final(self).wf(),
            final(self).gen == old(self).gen,
            final(self).seed == old(self).seed,
            r.blocks@ == Seq::new(
                CHUNK_TOTAL as nat,
                |i: int| spec_block_at(old(self).spec_seed(), pid, cpos, old(self).gen, i),
            ),
            r.structures@ == spec_structures(
                old(self).spec_seed(),
                pid,
                cpos,
                old(self).gen,
            ),
    {
        let seed = seed_word(self.seed);
        let _summ = self.generate_summary(pid, cpos);
        let mut blocks: Vec<BlockId> = Vec::new();
        let n: usize = CHUNK_TOTAL;
        let mut i: usize = 0;
        while i < n
            invariant
                n == CHUNK_TOTAL,
                0 <= i <= n,
                seed == spec_seed_word(self.seed),
                self.gen == old(self).gen,
                self.seed == old(self).seed,
                self.gen.shape_ok(),
                blocks@ == Seq::new(
                    i as nat,
                    |k: int| spec_block_at(seed, pid, cpos, self.gen, k),
                ),
            decreases n - i,
        {
            let b = block_at(seed, pid, cpos, &self.gen, i);
            blocks.push(b);
            proof {
                assert(blocks@ =~= Seq::new(
                    (i + 1) as nat,
                    |k: int| spec_block_at(seed, pid, cpos, self.gen, k),
                ));
            }
            i += 1;
        }
        let mut structures: Vec<GenStructure> = Vec::new();
        let count = (mix(seed ^ pid, 5, pack_v2(cpos), 0) % 4) as i32;
        proof {
            assert(count == spec_tree_count(seed, pid, cpos));
        }
        let mut k: i32 = 0;
        while k < count
            invariant
                0 <= k <= count,
                count == spec_tree_count(seed, pid, cpos),
                seed == spec_seed_word(self.seed),
                self.gen == old(self).gen,
                self.gen.shape_ok(),
                structures@ == spec_tree_structs(seed, pid, cpos, self.gen).take(k as int),
            decreases count - k,
        {
            let o = V2 {
                x: (mix(seed ^ pid, 4, pack_v2(cpos), (2 * k) as u64) % 16) as i32,
                y: (mix(seed ^ pid, 4, pack_v2(cpos), (2 * k + 1) as u64) % 16) as i32,
            };
            let h = vertex_height(seed, pid, cpos, o.x, o.y);
            let layer: i32 = if h < 100 {
                0
            } else {
                ((h - 100) / 2 + 1) as i32
            };
            let tid = if mix(seed ^ pid, 8, pack_v2(cpos), k as u64) % 3 < 2 {
                self.gen.tree_template
            } else {
                self.gen.rock_template
            };
            structures.push(GenStructure { pos: V3 { x: o.x, y: o.y, z: layer * 2 }, template_id: tid });
            proof {
                assert(o == spec_tree_offset(seed, pid, cpos, k as int));
                assert(structures@ =~= spec_tree_structs(seed, pid, cpos, self.gen).take(
                    k as int + 1,
                ));
            }
            k += 1;
        }
        proof {
            assert(spec_tree_structs(seed, pid, cpos, self.gen).take(count as int)
                =~= spec_tree_structs(seed, pid, cpos, self.gen));
        }
        let mut l: u8 = 0;
        while l < LAYERS
            invariant
                0 <= l <= LAYERS,
                seed == spec_seed_word(self.seed),
                self.gen == old(self).gen,
                self.gen.shape_ok(),
                structures@ == spec_tree_structs(seed, pid, cpos, self.gen)
                    + spec_treasure_structs(seed, pid, cpos, self.gen, l as int),
            decreases LAYERS - l,
        {
            let offsets = treasure_offsets(seed, pid, cpos, l);
            let m2 = offsets.len();
            let ghost structs0 = structures@;
            let mut j2: usize = 0;
            while j2 < m2
                invariant
                    0 <= j2 <= m2,
                    l < LAYERS,
                    m2 == offsets@.len(),
                    offsets@ == spec_treasure_offsets(
                        seed,
                        pid,
                        cpos,
                        l,
                        TREASURE_CANDIDATES as int,
                    ),
                    seed == spec_seed_word(self.seed),
                    self.gen == old(self).gen,
                    self.gen.shape_ok(),
                    structures@ == structs0 + spec_layer_structs(
                        seed,
                        pid,
                        cpos,
                        self.gen,
                        l,
                    ).take(j2 as int),
                decreases m2 - j2,
            {
                let o = offsets[j2];
                let tid = self.gen.junk_templates[(mix(
                    seed ^ pid ^ ((l as u64) << 40),
                    9,
                    pack_v2(cpos),
                    j2 as u64,
                ) % 3) as usize];
                structures.push(
                    GenStructure { pos: V3 { x: o.x, y: o.y, z: (l as i32) * 2 }, template_id: tid },
                );
                proof {
                    reveal(spec_layer_structs);
                    assert(structures@ =~= structs0 + spec_layer_structs(
                        seed,
                        pid,
                        cpos,
                        self.gen,
                        l,
                    ).take(j2 as int + 1));
                }
                j2 += 1;
            }
            proof {
                reveal(spec_layer_structs);
                assert(spec_layer_structs(seed, pid, cpos, self.gen, l).take(m2 as int)
                    =~= spec_layer_structs(seed, pid, cpos, self.gen, l));
                assert(structs0 + spec_layer_structs(seed, pid, cpos, self.gen, l)
                    =~= spec_tree_structs(seed, pid, cpos, self.gen) + spec_treasure_structs(
                    seed,
                    pid,
                    cpos,
                    self.gen,
                    l as int + 1,
                ));
            }
            l += 1;
        }
        proof {
            assert(blocks@ =~= Seq::new(
                CHUNK_TOTAL as nat,
                |i2: int| spec_block_at(seed, pid, cpos, self.gen, i2),
            ));
        }
        GenChunk { blocks, structures }
    }
}

/// Coarse height of an arbitrary chunk (the origin is pinned).
fn super_height_at(seed: u64, pid: StableId, cpos: V2) -> (r: u8)
    ensures
        r == crate::terrain_gen::spec_super_height(seed, pid, cpos),
{
    crate::terrain_gen::super_height(seed, pid, cpos)
}

/// Exec twin of `spec_block_at`.
fn block_at(seed: u64, pid: StableId, cpos: V2, gen: &GenData, idx: usize) -> (r: BlockId)
    requires
        idx < CHUNK_TOTAL,
        gen.grass_ids@.len() == 4,
        gen.cave_z0_grass_ids@.len() == 81,
        gen.cave_z0_dirt_ids@.len() == 81,
        gen.cave_z1_ids@.len() == 81,
        gen.cave_top_ids@.len() == 16,
    ensures
        r == spec_block_at(seed, pid, cpos, *gen, idx as int),
{
    proof {
        reveal(spec_block_at);
    }
    let x = (idx % 16) as i32;
    let y = ((idx / 16) % 16) as i32;
    let z = (idx / 256) as i32;
    proof {
        assert(0 <= idx % 16 < 16 && 0 <= (idx / 16) % 16 < 16 && 0 <= idx / 256 < 16)
            by (nonlinear_arith)
            requires
                idx < 4096,
        ;
        assert(idx as int % 16 == idx % 16 && (idx as int / 16) % 16 == (idx / 16) % 16
            && idx as int / 256 == idx / 256);
    }
    if z % 2 == 0 {
        let m = (z / 2) as u8;
        proof {
            assert(z / 2 < 8) by (nonlinear_arith)
                requires
                    0 <= z < 16,
            ;
            lemma_cell_key_bounds(seed, pid, cpos, m, x as int, y as int);
        }
        let keys = get_cell_keys(seed, pid, cpos, m, x, y);
        if keys.0 != OUTSIDE_KEY {
            if m == 0 {
                gen.cave_z0_grass_ids[keys.0 as usize]
            } else {
                gen.cave_z0_dirt_ids[keys.0 as usize]
            }
        } else if z == 0 {
            gen.grass_ids[(mix(seed ^ pid, 7, pack_v2(cpos), idx as u64) % 4) as usize]
        } else {
            proof {
                lemma_cell_key_bounds(seed, pid, cpos, (m - 1) as u8, x as int, y as int);
            }
            let below = get_cell_keys(seed, pid, cpos, m - 1, x, y);
            if below.0 != OUTSIDE_KEY {
                gen.cave_top_ids[below.1 as usize]
            } else {
                0
            }
        }
    } else {
        let m = (z / 2) as u8;
        proof {
            assert(z / 2 < 8) by (nonlinear_arith)
                requires
                    0 <= z < 16,
            ;
            lemma_cell_key_bounds(seed, pid, cpos, m, x as int, y as int);
        }
        let keys = get_cell_keys(seed, pid, cpos, m, x, y);
        if keys.0 != OUTSIDE_KEY {
            gen.cave_z1_ids[keys.0 as usize]
        } else {
            0
        }
    }
}

/// Byte-for-byte copy of a `u8` vector.
fn clone_u8_vec(v: &Vec<u8>) -> (r: Vec<u8>)
    ensures
        r@ == v@,
{
    let mut out: Vec<u8> = Vec::new();
    let n = v.len();
    let mut i: usize = 0;
    while i < n
        invariant
            n == v@.len(),
            0 <= i <= n,
            out@ == v@.take(i as int),
        decreases n - i,
    {
        out.push(v[i]);
        proof {
            assert(out@ =~= v@.take(i as int + 1));
        }
        i += 1;
    }
    proof {
        assert(v@.take(n as int) =~= v@);
    }
    out
}

/// Element-for-element copy of a `bool` vector.
fn clone_bool_vec(v: &Vec<bool>) -> (r: Vec<bool>)
    ensures
        r@ == v@,
{
    let mut out: Vec<bool> = Vec::new();
    let n = v.len();
    let mut i: usize = 0;
    while i < n
        invariant
            n == v@.len(),
            0 <= i <= n,
            out@ == v@.take(i as int),
        decreases n - i,
    {
        out.push(v[i]);
        proof {
            assert(out@ =~= v@.take(i as int + 1));
        }
        i += 1;
    }
    proof {
        assert(v@.take(n as int) =~= v@);
    }
    out
}

/// Every generated block id stays inside the block table bound, so a
/// generated chunk can always be loaded into the world.
pub proof fn lemma_generated_blocks_bounded(
    seed: u64,
    pid: StableId,
    cpos: V2,
    gen: GenData,
    nblocks: int,
    i: int,
)
    requires
        gen.wf(nblocks),
        nblocks >= 1,
    ensures
        (spec_block_at(seed, pid, cpos, gen, i) as int) < nblocks,
{
    reveal(spec_block_at);
    let x = i % 16;
    let y = (i / 16) % 16;
    let z = i / 256;
    lemma_cell_key_bounds(seed, pid, cpos, (z / 2) as u8, x, y);
    if z % 2 == 0 && z != 0 {
        lemma_cell_key_bounds(seed, pid, cpos, ((z / 2) - 1) as u8, x, y);
    }
    vstd::arithmetic::div_mod::lemma_mod_bound(
        spec_mix(seed ^ pid, 7, spec_pack_v2(cpos), i as u64) as int,
        4,
    );
}

/// Determinism of generation: the chunk a provider produces is a function
/// of its seed, the plane and the chunk position alone, so two providers
/// with equal seeds and data agree on every chunk.
pub proof fn lemma_generate_deterministic(
    p1: Provider,
    p2: Provider,
    pid: StableId,
    cpos: V2,
    r1: GenChunk,
    r2: GenChunk,
)
    requires
        p1.seed == p2.seed,
        p1.gen == p2.gen,
        r1.blocks@ == Seq::new(
            CHUNK_TOTAL as nat,
            |i: int| spec_block_at(p1.spec_seed(), pid, cpos, p1.gen, i),
        ),
        r2.blocks@ == Seq::new(
            CHUNK_TOTAL as nat,
            |i: int| spec_block_at(p2.spec_seed(), pid, cpos, p2.gen, i),
        ),
        r1.structures@ == spec_structures(p1.spec_seed(), pid, cpos, p1.gen),
        r2.structures@ == spec_structures(p2.spec_seed(), pid, cpos, p2.gen),
    ensures
        r1.blocks@ == r2.blocks@,
        r1.structures@ == r2.structures@,
{
    assert(r1.blocks@ =~= r2.blocks@);
}

} // verus!
