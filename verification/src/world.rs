//! The in-memory world graph: clients, terrain chunks, entities, structures
//! and inventories, with the structural invariants that every mutation
//! preserves (referential closure, bidirectional parent/child links, the
//! exact structures-by-chunk index, and pairwise disjoint structure boxes).

use vstd::prelude::*;
use crate::types::{
    Time, Duration, BlockId, AnimId, TemplateId, ClientId, EntityId, InventoryId, StructureId,
    InputBits, NO_STABLE_ID,
};
use crate::geom::{V2, V3, Region, Region2, spec_pack_v2, pack_v2, spec_chunk_of, spec_chunk_range};
use crate::stable_id_map::StableIdMap;
use crate::vec_map::VecMap;
use crate::idset::{contains_id, sorted_unique};
use crate::CHUNK_SIZE;
use crate::CHUNK_TOTAL;

pub mod ops;
pub mod inventory;

verus! {

broadcast use vstd::std_specs::vec::group_vec_axioms;

/// All world coordinates stay well inside `i32`, so chunk arithmetic cannot
/// overflow.
pub const COORD_LIMIT: i32 = 0x100000;

/// Largest extent of a structure template along any axis.
pub const TEMPLATE_SIZE_LIMIT: i32 = 64;

#[derive(Clone, Copy, PartialEq, Eq, Structural, Debug)]
pub enum Shape {
    Empty,
    Floor,
    Solid,
    Ramp,
}

/// Static structure template: box extent, terrain shape and draw layer.
#[derive(Clone, Copy, PartialEq, Eq, Structural, Debug)]
pub struct StructureTemplate {
    pub size: V3,
    pub shape: Shape,
    pub layer: u8,
}

/// Static data tables, loaded at startup by the host program.
pub struct Data {
    pub block_shapes: Vec<Shape>,
    pub templates: Vec<StructureTemplate>,
}

impl Data {
    /// Template sizes are positive and small; block ids index `block_shapes`.
    pub open spec fn wf(self) -> bool {
        &&& forall|t: int|
            #![trigger self.templates@[t]]
            0 <= t < self.templates@.len() ==> {
                &&& 1 <= self.templates@[t].size.x <= TEMPLATE_SIZE_LIMIT
                &&& 1 <= self.templates@[t].size.y <= TEMPLATE_SIZE_LIMIT
                &&& 1 <= self.templates@[t].size.z <= TEMPLATE_SIZE_LIMIT
            }
        &&& self.block_shapes@.len() <= 0x10000
    }

    pub fn get_template(&self, tid: TemplateId) -> (r: Option<&StructureTemplate>)
        ensures
            match r {
                Some(t) => (tid as int) < self.templates@.len() && *t == self.templates@[tid
                    as int],
                None => (tid as int) >= self.templates@.len(),
            },
    {
        if (tid as usize) < self.templates.len() {
            Some(&self.templates[tid as usize])
        } else {
            None
        }
    }
}

/// Linear interpolation from `a` toward `b` by `dt / dur`, rounding toward
/// `a`.
pub open spec fn spec_interp(a: int, b: int, dt: int, dur: int) -> int {
    if b >= a {
        a + (b - a) * dt / dur
    } else {
        a - (a - b) * dt / dur
    }
}

/// Piecewise-linear motion: the entity moves from `start_pos` (at
/// `start_time`) to `end_pos` (at `start_time + duration`), then stays.
#[derive(Clone, Copy, PartialEq, Eq, Structural, Debug)]
pub struct Motion {
    pub start_pos: V3,
    pub end_pos: V3,
    pub start_time: Time,
    pub duration: Duration,
}

impl Motion {
    /// Position at `now`: clamped linear interpolation of the motion,
    /// rounding toward the start position.
    pub open spec fn spec_pos(self, now: Time) -> V3 {
        if now <= self.start_time || self.duration == 0 {
            self.start_pos
        } else if now >= self.start_time + self.duration {
            self.end_pos
        } else {
            let dt = now - self.start_time;
            V3 {
                x: spec_interp(self.start_pos.x as int, self.end_pos.x as int, dt, self.duration as int) as i32,
                y: spec_interp(self.start_pos.y as int, self.end_pos.y as int, dt, self.duration as int) as i32,
                z: spec_interp(self.start_pos.z as int, self.end_pos.z as int, dt, self.duration as int) as i32,
            }
        }
    }

    pub open spec fn in_bounds(self) -> bool {
        &&& -COORD_LIMIT <= self.start_pos.x <= COORD_LIMIT
        &&& -COORD_LIMIT <= self.start_pos.y <= COORD_LIMIT
        &&& -COORD_LIMIT <= self.start_pos.z <= COORD_LIMIT
        &&& -COORD_LIMIT <= self.end_pos.x <= COORD_LIMIT
        &&& -COORD_LIMIT <= self.end_pos.y <= COORD_LIMIT
        &&& -COORD_LIMIT <= self.end_pos.z <= COORD_LIMIT
    }

    /// A stationary motion at `pos`.
    pub fn fixed(pos: V3) -> (r: Motion)
        ensures
            r == (Motion { start_pos: pos, end_pos: pos, start_time: 0, duration: 0 }),
    {
        Motion { start_pos: pos, end_pos: pos, start_time: 0, duration: 0 }
    }

    pub fn end_time(&self) -> (r: Time)
        requires
            self.start_time <= i64::MAX - 0x10000,
        ensures
            r == self.start_time + self.duration,
    {
        self.start_time + self.duration as i64
    }

    pub fn pos(&self, now: Time) -> (r: V3)
        requires
            self.in_bounds(),
            -0x4000_0000_0000_0000 <= now <= 0x4000_0000_0000_0000,
            self.start_time <= i64::MAX - 0x10000,
            -0x4000_0000_0000_0000 <= self.start_time,
        ensures
            r == self.spec_pos(now),
            -COORD_LIMIT <= r.x <= COORD_LIMIT,
            -COORD_LIMIT <= r.y <= COORD_LIMIT,
            -COORD_LIMIT <= r.z <= COORD_LIMIT,
    {
        if now <= self.start_time || self.duration == 0 {
            self.start_pos
        } else if now >= self.start_time + self.duration as i64 {
            self.end_pos
        } else {
            let dt: i64 = now - self.start_time;
            let dur: i64 = self.duration as i64;
            V3 {
                x: interp_axis(self.start_pos.x, self.end_pos.x, dt, dur),
                y: interp_axis(self.start_pos.y, self.end_pos.y, dt, dur),
                z: interp_axis(self.start_pos.z, self.end_pos.z, dt, dur),
            }
        }
    }
}

/// One axis of the clamped interpolation.
fn interp_axis(a: i32, b: i32, dt: i64, dur: i64) -> (r: i32)
    requires
        -COORD_LIMIT <= a <= COORD_LIMIT,
        -COORD_LIMIT <= b <= COORD_LIMIT,
        0 < dt < dur <= 0xFFFF,
    ensures
        r == spec_interp(a as int, b as int, dt as int, dur as int),
        -COORD_LIMIT <= r <= COORD_LIMIT,
{
    proof {
        lemma_interp_bounds(a as int, b as int, dt as int, dur as int);
    }
    if b >= a {
        a + ((b as i64 - a as i64) * dt / dur) as i32
    } else {
        a - ((a as i64 - b as i64) * dt / dur) as i32
    }
}

/// The interpolation step moves at most `|b - a|` from `a`.
proof fn lemma_interp_bounds(a: int, b: int, dt: int, dur: int)
    requires
        -COORD_LIMIT <= a <= COORD_LIMIT,
        -COORD_LIMIT <= b <= COORD_LIMIT,
        0 < dt < dur <= 0xFFFF,
    ensures
        b >= a ==> 0 <= (b - a) * dt / dur <= b - a,
        b < a ==> 0 <= (a - b) * dt / dur <= a - b,
        0 <= (if b >= a { b - a } else { a - b }) * dt < 0x7FFF_FFFF_FFFF,
{
    let d = if b >= a {
        b - a
    } else {
        a - b
    };
    assert(0 <= d <= 2 * COORD_LIMIT);
    assert(0 <= d * dt < 0x7FFF_FFFF_FFFF && d * dt <= d * dur) by (nonlinear_arith)
        requires
            0 <= d <= 2 * COORD_LIMIT,
            0 < dt < dur <= 0xFFFF,
    ;
    vstd::arithmetic::div_mod::lemma_div_pos_is_pos(d * dt, dur);
    vstd::arithmetic::div_mod::lemma_div_is_ordered(d * dt, d * dur, dur);
    vstd::arithmetic::div_mod::lemma_div_multiples_vanish(d, dur);
    assert(d * dur == dur * d) by (nonlinear_arith);
}

#[derive(Clone, Copy, PartialEq, Eq, Structural, Debug)]
pub enum EntityAttachment {
    World,
    Chunk,
    Client(ClientId),
}

#[derive(Clone, Copy, PartialEq, Eq, Structural, Debug)]
pub enum StructureAttachment {
    World,
    Chunk,
}

#[derive(Clone, Copy, PartialEq, Eq, Structural, Debug)]
pub enum InventoryAttachment {
    World,
    Client(ClientId),
    Entity(EntityId),
    Structure(StructureId),
}

/// Per-client rectangular view region, in chunk coordinates.
#[derive(Clone, Copy, PartialEq, Eq, Structural, Debug)]
pub struct ViewState {
    pub region: Region2,
}

/// Half-width of the view region: a client sees `VIEW_RADIUS` chunks on each
/// side of its center chunk, a (2r+1) x (2r+1) square.
pub const VIEW_RADIUS: i32 = 3;

impl ViewState {
    /// The view region centered on chunk `c`.
    pub open spec fn spec_region_for(c: V2) -> Region2 {
        Region2 {
            min: V2 { x: (c.x - VIEW_RADIUS) as i32, y: (c.y - VIEW_RADIUS) as i32 },
            max: V2 { x: (c.x + VIEW_RADIUS + 1) as i32, y: (c.y + VIEW_RADIUS + 1) as i32 },
        }
    }

    pub fn region_for(c: V2) -> (r: Region2)
        requires
            -COORD_LIMIT <= c.x <= COORD_LIMIT,
            -COORD_LIMIT <= c.y <= COORD_LIMIT,
        ensures
            r == Self::spec_region_for(c),
    {
        Region2 {
            min: V2 { x: c.x - VIEW_RADIUS, y: c.y - VIEW_RADIUS },
            max: V2 { x: c.x + VIEW_RADIUS + 1, y: c.y + VIEW_RADIUS + 1 },
        }
    }

    pub fn new(center: V2) -> (r: ViewState)
        requires
            -COORD_LIMIT <= center.x <= COORD_LIMIT,
            -COORD_LIMIT <= center.y <= COORD_LIMIT,
        ensures
            r.region == Self::spec_region_for(center),
    {
        ViewState { region: Self::region_for(center) }
    }

    pub fn region(&self) -> (r: Region2)
        ensures
            r == self.region,
    {
        self.region
    }

    /// Recomputes the region for a new center chunk; returns the old and new
    /// regions when they differ, `None` when the view is unchanged.
    pub fn update(&mut self, center: V2) -> (r: Option<(Region2, Region2)>)
        requires
            -COORD_LIMIT <= center.x <= COORD_LIMIT,
            -COORD_LIMIT <= center.y <= COORD_LIMIT,
        ensures
            final(self).region == Self::spec_region_for(center),
            match r {
                Some(pair) => pair.0 == old(self).region && pair.1 == final(self).region
                    && old(self).region != final(self).region,
                None => old(self).region == final(self).region,
            },
    {
        let new_region = Self::region_for(center);
        let old_region = self.region;
        if new_region.min.x != old_region.min.x || new_region.min.y != old_region.min.y
            || new_region.max.x != old_region.max.x || new_region.max.y != old_region.max.y {
            self.region = new_region;
            Some((old_region, new_region))
        } else {
            None
        }
    }
}

pub struct Client {
    pub name: String,
    pub pawn: Option<EntityId>,
    pub current_input: InputBits,
    pub chunk_offset: (u8, u8),
    pub view_state: ViewState,
    pub child_entities: Vec<u32>,
    pub child_inventories: Vec<u32>,
}

impl Client {
    pub fn current_input(&self) -> (r: InputBits)
        ensures
            r == self.current_input,
    {
        self.current_input
    }

    pub fn set_current_input(&mut self, new: InputBits)
        ensures
            *final(self) == (Client { current_input: new, ..*old(self) }),
    {
        self.current_input = new;
    }

    pub fn chunk_offset(&self) -> (r: (u8, u8))
        ensures
            r == self.chunk_offset,
    {
        self.chunk_offset
    }

    pub fn set_chunk_offset(&mut self, new: (u8, u8))
        ensures
            *final(self) == (Client { chunk_offset: new, ..*old(self) }),
    {
        self.chunk_offset = new;
    }

    pub fn view_state(&self) -> (r: &ViewState)
        ensures
            *r == self.view_state,
    {
        &self.view_state
    }

    pub fn view_state_mut(&mut self) -> (r: &mut ViewState)
        ensures
            *r == old(self).view_state,
            *final(self) == (Client { view_state: *final(r), ..*old(self) }),
    {
        &mut self.view_state
    }
}

pub struct TerrainChunk {
    pub blocks: Vec<BlockId>,
    pub child_structures: Vec<u32>,
}

impl TerrainChunk {
    pub fn block(&self, idx: usize) -> (r: BlockId)
        requires
            idx < self.blocks@.len(),
        ensures
            r == self.blocks@[idx as int],
    {
        self.blocks[idx]
    }
}

pub struct Entity {
    pub motion: Motion,
    pub anim: AnimId,
    pub facing: V3,
    pub target_velocity: V3,
    pub appearance: u32,
    pub attachment: EntityAttachment,
    pub child_inventories: Vec<u32>,
}

impl Entity {
    pub fn motion(&self) -> (r: &Motion)
        ensures
            *r == self.motion,
    {
        &self.motion
    }

    pub fn anim(&self) -> (r: AnimId)
        ensures
            r == self.anim,
    {
        self.anim
    }

    pub fn set_anim(&mut self, new: AnimId)
        ensures
            *final(self) == (Entity { anim: new, ..*old(self) }),
    {
        self.anim = new;
    }

    pub fn facing(&self) -> (r: V3)
        ensures
            r == self.facing,
    {
        self.facing
    }

    pub fn set_facing(&mut self, new: V3)
        ensures
            *final(self) == (Entity { facing: new, ..*old(self) }),
    {
        self.facing = new;
    }

    /// Position at `now` under the current motion.
    pub fn pos(&self, now: Time) -> (r: V3)
        requires
            self.motion.in_bounds(),
            -0x4000_0000_0000_0000 <= now <= 0x4000_0000_0000_0000,
            -0x4000_0000_0000_0000 <= self.motion.start_time <= i64::MAX - 0x10000,
        ensures
            r == self.motion.spec_pos(now),
            -COORD_LIMIT <= r.x <= COORD_LIMIT,
            -COORD_LIMIT <= r.y <= COORD_LIMIT,
            -COORD_LIMIT <= r.z <= COORD_LIMIT,
    {
        self.motion.pos(now)
    }

    pub fn attachment(&self) -> (r: EntityAttachment)
        ensures
            r == self.attachment,
    {
        self.attachment
    }
}

pub struct Structure {
    pub pos: V3,
    pub template: TemplateId,
    pub attachment: StructureAttachment,
    pub child_inventories: Vec<u32>,
}

impl Structure {
    pub fn pos(&self) -> (r: V3)
        ensures
            r == self.pos,
    {
        self.pos
    }

    pub fn template_id(&self) -> (r: TemplateId)
        ensures
            r == self.template,
    {
        self.template
    }
}

pub struct Inventory {
    pub contents: VecMap<u8>,
    pub attachment: InventoryAttachment,
}

/// The world: one table per object kind, plus the inverted index from chunk
/// positions to the structures whose boxes touch them.
pub struct World {
    pub data: Data,
    pub clients: StableIdMap<Client>,
    pub terrain_chunks: VecMap<TerrainChunk>,
    pub entities: StableIdMap<Entity>,
    pub structures: StableIdMap<Structure>,
    pub inventories: StableIdMap<Inventory>,
    pub structures_by_chunk: VecMap<Vec<u32>>,
}

pub enum Update {
    ClientViewReset(ClientId),
}

impl World {
    pub fn new(data: Data) -> (r: World)
        requires
            data.wf(),
        ensures
            r.wf(),
            r.data == data,
            r.clients.spec_len() == 0,
            r.entities.spec_len() == 0,
            r.structures.spec_len() == 0,
            r.inventories.spec_len() == 0,
            r.terrain_chunks.spec_len() == 0,
    {
        World {
            data,
            clients: StableIdMap::new(0xFFFF),
            terrain_chunks: VecMap::new(),
            entities: StableIdMap::new(0xFFFF_FFF0),
            structures: StableIdMap::new(0xFFFF_FFF0),
            inventories: StableIdMap::new(0xFFFF_FFF0),
            structures_by_chunk: VecMap::new(),
        }
    }

    pub fn record(&mut self, _update: Update)
        ensures
            *final(self) == *old(self),
    {
    }

    // ------------------------------------------------------------------
    // spec-level accessors

    pub open spec fn client_live(self, c: int) -> bool {
        self.clients.live(c)
    }

    pub open spec fn client_at(self, c: int) -> Client {
        self.clients.obj(c)
    }

    pub open spec fn entity_live(self, e: int) -> bool {
        self.entities.live(e)
    }

    pub open spec fn entity_at(self, e: int) -> Entity {
        self.entities.obj(e)
    }

    pub open spec fn structure_live(self, s: int) -> bool {
        self.structures.live(s)
    }

    pub open spec fn structure_at(self, s: int) -> Structure {
        self.structures.obj(s)
    }

    pub open spec fn inventory_live(self, i: int) -> bool {
        self.inventories.live(i)
    }

    pub open spec fn inventory_at(self, i: int) -> Inventory {
        self.inventories.obj(i)
    }

    pub open spec fn chunk_at(self, cpos: V2) -> Option<TerrainChunk> {
        self.terrain_chunks.spec_get(spec_pack_v2(cpos))
    }

    pub open spec fn chunk_loaded(self, cpos: V2) -> bool {
        self.terrain_chunks.spec_contains(spec_pack_v2(cpos))
    }

    /// Bounding box of live structure `s`: its position extended by its
    /// template's size.
    pub open spec fn s_bounds(self, s: int) -> Region {
        let obj = self.structure_at(s);
        let tpl = self.data.templates@[obj.template as int];
        Region { min: obj.pos, max: obj.pos.spec_plus(tpl.size) }
    }

    /// Whether the index lists structure `sid` under chunk `cpos`.
    pub open spec fn sbc_has(self, cpos: V2, sid: u32) -> bool {
        match self.structures_by_chunk.spec_get(spec_pack_v2(cpos)) {
            Some(l) => contains_id(l@, sid),
            None => false,
        }
    }

    // ------------------------------------------------------------------
    // well-formedness

    pub open spec fn wf_client_obj(self, c: int) -> bool {
        let obj = self.client_at(c);
        &&& sorted_unique(obj.child_entities@)
        &&& sorted_unique(obj.child_inventories@)
        &&& match obj.pawn {
            Some(e) => self.entity_live(e.0 as int) && self.entity_at(e.0 as int).attachment
                == EntityAttachment::Client(ClientId(c as u16)),
            None => true,
        }
        &&& forall|j: int|
            0 <= j < obj.child_entities@.len() ==> {
                &&& self.entity_live(obj.child_entities@[j] as int)
                &&& self.entity_at(obj.child_entities@[j] as int).attachment
                    == EntityAttachment::Client(ClientId(c as u16))
            }
        &&& forall|j: int|
            0 <= j < obj.child_inventories@.len() ==> {
                &&& self.inventory_live(obj.child_inventories@[j] as int)
                &&& self.inventory_at(obj.child_inventories@[j] as int).attachment
                    == InventoryAttachment::Client(ClientId(c as u16))
            }
    }

    pub open spec fn wf_entity_obj(self, e: int, dc: Option<u16>) -> bool {
        let obj = self.entity_at(e);
        &&& sorted_unique(obj.child_inventories@)
        &&& obj.motion.in_bounds()
        &&& -0x4000_0000_0000_0000 <= obj.motion.start_time <= 0x4000_0000_0000_0000
        &&& match obj.attachment {
            EntityAttachment::World => true,
            EntityAttachment::Chunk => false,
            EntityAttachment::Client(cid) => (self.client_live(cid.0 as int) && contains_id(
                self.client_at(cid.0 as int).child_entities@,
                e as u32,
            )) || Some(cid.0) == dc,
        }
        &&& forall|j: int|
            0 <= j < obj.child_inventories@.len() ==> {
                &&& self.inventory_live(obj.child_inventories@[j] as int)
                &&& self.inventory_at(obj.child_inventories@[j] as int).attachment
                    == InventoryAttachment::Entity(EntityId(e as u32))
            }
    }

    pub open spec fn wf_structure_obj(self, s: int, dtc: Option<V2>) -> bool {
        let obj = self.structure_at(s);
        &&& (obj.template as int) < self.data.templates@.len()
        &&& -COORD_LIMIT <= obj.pos.x <= COORD_LIMIT
        &&& -COORD_LIMIT <= obj.pos.y <= COORD_LIMIT
        &&& -COORD_LIMIT <= obj.pos.z <= COORD_LIMIT
        &&& sorted_unique(obj.child_inventories@)
        &&& match obj.attachment {
            StructureAttachment::World => true,
            StructureAttachment::Chunk => {
                let cpos = spec_chunk_of(V2 { x: obj.pos.x, y: obj.pos.y });
                (match self.chunk_at(cpos) {
                    Some(tc) => contains_id(tc.child_structures@, s as u32),
                    None => false,
                }) || Some(cpos) == dtc
            },
        }
        &&& forall|j: int|
            0 <= j < obj.child_inventories@.len() ==> {
                &&& self.inventory_live(obj.child_inventories@[j] as int)
                &&& self.inventory_at(obj.child_inventories@[j] as int).attachment
                    == InventoryAttachment::Structure(StructureId(s as u32))
            }
    }

    pub open spec fn wf_inventory_obj(
        self,
        i: int,
        dc: Option<u16>,
        de: Set<u32>,
        ds: Option<u32>,
    ) -> bool {
        let obj = self.inventory_at(i);
        &&& obj.contents.wf()
        &&& forall|k: u64| obj.contents.spec_contains(k) ==> k <= 0xFFFF
        &&& forall|k: u64| #[trigger] obj.contents.spec_get(k) != Some(0u8)
        &&& match obj.attachment {
            InventoryAttachment::World => true,
            InventoryAttachment::Client(cid) => (self.client_live(cid.0 as int) && contains_id(
                self.client_at(cid.0 as int).child_inventories@,
                i as u32,
            )) || Some(cid.0) == dc,
            InventoryAttachment::Entity(eid) => (self.entity_live(eid.0 as int) && contains_id(
                self.entity_at(eid.0 as int).child_inventories@,
                i as u32,
            )) || de.contains(eid.0),
            InventoryAttachment::Structure(sid) => (self.structure_live(sid.0 as int)
                && contains_id(self.structure_at(sid.0 as int).child_inventories@, i as u32))
                || Some(sid.0) == ds,
        }
    }

    pub open spec fn wf_chunk_obj(self, cpos: V2, tc: TerrainChunk) -> bool {
        &&& tc.blocks@.len() == CHUNK_TOTAL
        &&& forall|j: int|
            0 <= j < tc.blocks@.len() ==> (tc.blocks@[j] as int) < self.data.block_shapes@.len()
        &&& sorted_unique(tc.child_structures@)
        &&& forall|j: int|
            0 <= j < tc.child_structures@.len() ==> {
                &&& self.structure_live(tc.child_structures@[j] as int)
                &&& self.structure_at(tc.child_structures@[j] as int).attachment
                    == StructureAttachment::Chunk
                &&& spec_chunk_of(
                    V2 {
                        x: self.structure_at(tc.child_structures@[j] as int).pos.x,
                        y: self.structure_at(tc.child_structures@[j] as int).pos.y,
                    },
                ) == cpos
            }
    }

    /// The inverted index is exact: it lists `sid` under `cpos` exactly when
    /// `sid` is live and its box touches `cpos` (soundness direction here;
    /// completeness is `wf_sbc_complete`).
    pub open spec fn wf_sbc_sound(self) -> bool {
        forall|cpos: V2, sid: u32|
            #[trigger] self.sbc_has(cpos, sid) ==> {
                &&& self.structure_live(sid as int)
                &&& spec_chunk_range(self.s_bounds(sid as int)).contains(cpos)
            }
    }

    pub open spec fn wf_sbc_complete(self) -> bool {
        forall|cpos: V2, sid: u32|
            self.structure_live(sid as int) && spec_chunk_range(self.s_bounds(sid as int)).contains(
                cpos,
            ) ==> #[trigger] self.sbc_has(cpos, sid)
    }

    pub open spec fn wf_sbc_sorted(self) -> bool {
        forall|cpos: V2|
            match #[trigger] self.structures_by_chunk.spec_get(spec_pack_v2(cpos)) {
                Some(l) => sorted_unique(l@),
                None => true,
            }
    }

    /// Live structure boxes are pairwise disjoint.
    pub open spec fn wf_disjoint(self) -> bool {
        forall|s1: int, s2: int|
            self.structure_live(s1) && self.structure_live(s2) && s1 != s2 ==> !(
            #[trigger] self.s_bounds(s1)).spec_overlaps(#[trigger] self.s_bounds(s2))
    }

    /// Well-formedness during a cascading destroy: children may still point
    /// at the dead client `dc`, dead entities `de`, dead structure `ds`, or
    /// dead chunk `dtc`, which have already left their tables.
    pub open spec fn wf_x(
        self,
        dc: Option<u16>,
        de: Set<u32>,
        ds: Option<u32>,
        dtc: Option<V2>,
    ) -> bool {
        &&& self.data.wf()
        &&& self.clients.wf()
        &&& self.entities.wf()
        &&& self.structures.wf()
        &&& self.inventories.wf()
        &&& self.terrain_chunks.wf()
        &&& self.structures_by_chunk.wf()
        &&& self.clients.spec_limit() == 0xFFFF
        &&& self.entities.spec_limit() == 0xFFFF_FFF0
        &&& self.structures.spec_limit() == 0xFFFF_FFF0
        &&& self.inventories.spec_limit() == 0xFFFF_FFF0
        &&& forall|c: int| #[trigger] self.client_live(c) ==> self.wf_client_obj(c)
        &&& forall|e: int| #[trigger] self.entity_live(e) ==> self.wf_entity_obj(e, dc)
        &&& forall|s: int| #[trigger]
            self.structure_live(s) ==> self.wf_structure_obj(s, dtc)
        &&& forall|i: int| #[trigger]
            self.inventory_live(i) ==> self.wf_inventory_obj(i, dc, de, ds)
        &&& forall|cpos: V2|
            match #[trigger] self.chunk_at(cpos) {
                Some(tc) => self.wf_chunk_obj(cpos, tc),
                None => true,
            }
        &&& self.wf_sbc_sound()
        &&& self.wf_sbc_complete()
        &&& self.wf_sbc_sorted()
        &&& self.wf_disjoint()
    }

    /// Full well-formedness: no cascade in progress.
    pub open spec fn wf(self) -> bool {
        self.wf_x(None, Set::empty(), None, None)
    }

    // ------------------------------------------------------------------
    // invariant laws

    /// Index completeness: every chunk a live structure's box touches lists
    /// it in `structures_by_chunk`.
    pub proof fn lemma_structure_index_complete(self, sid: u32, cpos: V2)
        requires
            self.wf(),
            self.structure_live(sid as int),
            spec_chunk_range(self.s_bounds(sid as int)).contains(cpos),
        ensures
            self.sbc_has(cpos, sid),
    {
    }

    /// Bidirectional parenthood: every entity in a client's child set is
    /// live and attached to that client.
    pub proof fn lemma_child_entities_attached(self, c: int, j: int)
        requires
            self.wf(),
            self.client_live(c),
            0 <= c < 0x10000,
            0 <= j < self.client_at(c).child_entities@.len(),
        ensures
            self.entity_live(self.client_at(c).child_entities@[j] as int),
            self.entity_at(self.client_at(c).child_entities@[j] as int).attachment
                == EntityAttachment::Client(ClientId(c as u16)),
    {
        assert(self.wf_client_obj(c));
    }

    /// The pawn is one of the client's own entities.
    pub proof fn lemma_pawn_attached(self, c: int)
        requires
            self.wf(),
            self.client_live(c),
            0 <= c < 0x10000,
            self.client_at(c).pawn is Some,
        ensures
            self.entity_live(self.client_at(c).pawn->Some_0.0 as int),
            self.entity_at(self.client_at(c).pawn->Some_0.0 as int).attachment
                == EntityAttachment::Client(ClientId(c as u16)),
    {
        assert(self.wf_client_obj(c));
    }

    /// Stable-id round trip, live half: while an object stays live, its
    /// assigned stable id keeps resolving to its slot.  The op frames
    /// preserve liveness and stable ids of untouched slots, so this holds
    /// across any sequence of ops that keeps the object alive.
    pub proof fn lemma_client_stable_round_trip(self, c: int)
        requires
            self.wf(),
            self.client_live(c),
            self.clients.stable_of(c) != NO_STABLE_ID,
        ensures
            self.clients.spec_transient_of(self.clients.stable_of(c)) == Some(c as u32),
    {
        self.clients.lemma_stable_lookup(c);
    }

    pub proof fn lemma_entity_stable_round_trip(self, e: int)
        requires
            self.wf(),
            self.entity_live(e),
            self.entities.stable_of(e) != NO_STABLE_ID,
        ensures
            self.entities.spec_transient_of(self.entities.stable_of(e)) == Some(e as u32),
    {
        self.entities.lemma_stable_lookup(e);
    }

    pub proof fn lemma_structure_stable_round_trip(self, s: int)
        requires
            self.wf(),
            self.structure_live(s),
            self.structures.stable_of(s) != NO_STABLE_ID,
        ensures
            self.structures.spec_transient_of(self.structures.stable_of(s)) == Some(s as u32),
    {
        self.structures.lemma_stable_lookup(s);
    }

    pub proof fn lemma_inventory_stable_round_trip(self, i: int)
        requires
            self.wf(),
            self.inventory_live(i),
            self.inventories.stable_of(i) != NO_STABLE_ID,
        ensures
            self.inventories.spec_transient_of(self.inventories.stable_of(i)) == Some(i as u32),
    {
        self.inventories.lemma_stable_lookup(i);
    }

    /// Live structure boxes never overlap.
    pub proof fn lemma_structures_disjoint(self, s1: int, s2: int)
        requires
            self.wf(),
            self.structure_live(s1),
            self.structure_live(s2),
            s1 != s2,
        ensures
            !self.s_bounds(s1).spec_overlaps(self.s_bounds(s2)),
    {
    }

    // ------------------------------------------------------------------
    // exec accessors

    pub fn get_client(&self, id: ClientId) -> (r: Option<&Client>)
        ensures
            match r {
                Some(c) => self.client_live(id.0 as int) && *c == self.client_at(id.0 as int),
                None => !self.client_live(id.0 as int),
            },
    {
        self.clients.get(id.0 as u32)
    }

    pub fn get_entity(&self, id: EntityId) -> (r: Option<&Entity>)
        ensures
            match r {
                Some(e) => self.entity_live(id.0 as int) && *e == self.entity_at(id.0 as int),
                None => !self.entity_live(id.0 as int),
            },
    {
        self.entities.get(id.0)
    }

    pub fn get_structure(&self, id: StructureId) -> (r: Option<&Structure>)
        ensures
            match r {
                Some(s) => self.structure_live(id.0 as int) && *s == self.structure_at(
                    id.0 as int,
                ),
                None => !self.structure_live(id.0 as int),
            },
    {
        self.structures.get(id.0)
    }

    pub fn get_inventory(&self, id: InventoryId) -> (r: Option<&Inventory>)
        ensures
            match r {
                Some(i) => self.inventory_live(id.0 as int) && *i == self.inventory_at(
                    id.0 as int,
                ),
                None => !self.inventory_live(id.0 as int),
            },
    {
        self.inventories.get(id.0)
    }

    pub fn get_terrain_chunk(&self, cpos: V2) -> (r: Option<&TerrainChunk>)
        requires
            self.terrain_chunks.wf(),
        ensures
            match r {
                Some(tc) => self.chunk_at(cpos) == Some(*tc),
                None => self.chunk_at(cpos) == None::<TerrainChunk>,
            },
    {
        self.terrain_chunks.get(pack_v2(cpos))
    }

    /// The structures whose boxes touch chunk `cpos`, by the inverted index.
    pub fn chunk_structures(&self, cpos: V2) -> (r: Option<&Vec<u32>>)
        requires
            self.structures_by_chunk.wf(),
        ensures
            match r {
                Some(l) => self.structures_by_chunk.spec_get(spec_pack_v2(cpos)) == Some(*l),
                None => self.structures_by_chunk.spec_get(spec_pack_v2(cpos)) == None::<Vec<u32>>,
            },
    {
        self.structures_by_chunk.get(pack_v2(cpos))
    }
}

} // verus!
