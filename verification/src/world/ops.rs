//! Mutation operations over the world graph.  Each op takes the world and a
//! hook buffer, performs its change atomically, appends its hook events in
//! order, and preserves the world invariants; a failing op leaves the world
//! unchanged.

use vstd::prelude::*;
use crate::types::{
    Time, BlockId, AnimId, TemplateId, ClientId, EntityId, InventoryId, StructureId, ItemId,
    InputBits, StableId,
};
use crate::geom::{V2, V3, Region, Region2, spec_pack_v2, pack_v2, chunk_of, spec_chunk_of, chunk_range,
    spec_chunk_range, lemma_chunk_range_covers, lemma_pack_v2_injective};
use crate::idset::{contains_id, sorted_unique, idset_insert, idset_remove, idset_contains};
use crate::hooks::HookEvent;
use crate::vec_map::VecMap;
use crate::world::{
    World, Client, TerrainChunk, Entity, Structure, Inventory, Motion, ViewState,
    EntityAttachment, StructureAttachment, InventoryAttachment, COORD_LIMIT,
};
use crate::CHUNK_TOTAL;
use crate::CHUNK_SIZE;
use crate::world::TEMPLATE_SIZE_LIMIT;

verus! {

broadcast use vstd::std_specs::vec::group_vec_axioms;

pub type StrError = &'static str;

pub type OpResult<T> = Result<T, StrError>;

/// The two worlds agree on every client slot except `x` (stable ids
/// included).
pub open spec fn clients_same_except(a: World, b: World, x: int) -> bool {
    &&& a.clients.spec_next_stable() == b.clients.spec_next_stable()
    &&& a.clients.spec_limit() == b.clients.spec_limit()
    &&& forall|c: int|
        c != x ==> {
            &&& a.client_live(c) == b.client_live(c)
            &&& (a.client_live(c) ==> a.client_at(c) == b.client_at(c)
                && a.clients.stable_of(c) == b.clients.stable_of(c))
        }
}

pub open spec fn entities_same_except(a: World, b: World, x: int) -> bool {
    &&& a.entities.spec_next_stable() == b.entities.spec_next_stable()
    &&& a.entities.spec_limit() == b.entities.spec_limit()
    &&& forall|e: int|
        e != x ==> {
            &&& a.entity_live(e) == b.entity_live(e)
            &&& (a.entity_live(e) ==> a.entity_at(e) == b.entity_at(e) && a.entities.stable_of(e)
                == b.entities.stable_of(e))
        }
}

pub open spec fn structures_same_except(a: World, b: World, x: int) -> bool {
    &&& a.structures.spec_next_stable() == b.structures.spec_next_stable()
    &&& a.structures.spec_limit() == b.structures.spec_limit()
    &&& forall|s: int|
        s != x ==> {
            &&& a.structure_live(s) == b.structure_live(s)
            &&& (a.structure_live(s) ==> a.structure_at(s) == b.structure_at(s)
                && a.structures.stable_of(s) == b.structures.stable_of(s))
        }
}

pub open spec fn inventories_same_except(a: World, b: World, x: int) -> bool {
    &&& a.inventories.spec_next_stable() == b.inventories.spec_next_stable()
    &&& a.inventories.spec_limit() == b.inventories.spec_limit()
    &&& forall|i: int|
        i != x ==> {
            &&& a.inventory_live(i) == b.inventory_live(i)
            &&& (a.inventory_live(i) ==> a.inventory_at(i) == b.inventory_at(i)
                && a.inventories.stable_of(i) == b.inventories.stable_of(i))
        }
}

/// The index-related invariants carry over unchanged when the structure
/// table, the index and the data tables are untouched.
proof fn lemma_sbc_unchanged(wo: World, wn: World)
    requires
        wo.wf_sbc_sound(),
        wo.wf_sbc_complete(),
        wo.wf_sbc_sorted(),
        wo.wf_disjoint(),
        wn.structures == wo.structures,
        wn.structures_by_chunk == wo.structures_by_chunk,
        wn.data == wo.data,
    ensures
        wn.wf_sbc_sound(),
        wn.wf_sbc_complete(),
        wn.wf_sbc_sorted(),
        wn.wf_disjoint(),
{
    assert forall|cpos: V2, sid: u32| #[trigger] wn.sbc_has(cpos, sid) implies wn.structure_live(
        sid as int,
    ) && spec_chunk_range(wn.s_bounds(sid as int)).contains(cpos) by {
        assert(wo.sbc_has(cpos, sid));
    }
    assert forall|cpos: V2, sid: u32|
        wn.structure_live(sid as int) && spec_chunk_range(wn.s_bounds(sid as int)).contains(
            cpos,
        ) implies #[trigger] wn.sbc_has(cpos, sid) by {
        assert(wo.structure_live(sid as int));
        assert(wo.sbc_has(cpos, sid));
    }
    assert forall|cpos: V2| match #[trigger] wn.structures_by_chunk.spec_get(spec_pack_v2(cpos)) {
        Some(l) => sorted_unique(l@),
        None => true,
    } by {
        assert(wn.structures_by_chunk.spec_get(spec_pack_v2(cpos))
            == wo.structures_by_chunk.spec_get(spec_pack_v2(cpos)));
    }
    assert forall|s1: int, s2: int|
        wn.structure_live(s1) && wn.structure_live(s2) && s1 != s2 implies !(
    #[trigger] wn.s_bounds(s1)).spec_overlaps(#[trigger] wn.s_bounds(s2)) by {
        assert(wo.structure_live(s1) && wo.structure_live(s2));
        assert(!wo.s_bounds(s1).spec_overlaps(wo.s_bounds(s2)));
    }
}

/// Public face of the index-preservation frame, for other modules' frame
/// proofs.
pub proof fn lemma_sbc_unchanged_pub(wo: World, wn: World)
    requires
        wo.wf_sbc_sound(),
        wo.wf_sbc_complete(),
        wo.wf_sbc_sorted(),
        wo.wf_disjoint(),
        wn.structures == wo.structures,
        wn.structures_by_chunk == wo.structures_by_chunk,
        wn.data == wo.data,
    ensures
        wn.wf_sbc_sound(),
        wn.wf_sbc_complete(),
        wn.wf_sbc_sorted(),
        wn.wf_disjoint(),
{
    lemma_sbc_unchanged(wo, wn);
}

// ------------------------------------------------------------------
// client ops

/// Adds a fresh client with no pawn, no children and empty input.  Fails
/// exactly when the client id space is exhausted.
pub fn client_create(
    w: &mut World,
    hooks: &mut Vec<HookEvent>,
    name: &str,
    chunk_offset: (u8, u8),
) -> (r: OpResult<ClientId>)
    requires
        old(w).wf(),
    ensures
        match r {
            Ok(cid) => {
                &&& final(w).wf()
                &&& !old(w).client_live(cid.0 as int)
                &&& final(w).client_live(cid.0 as int)
                &&& final(w).client_at(cid.0 as int).name@ == name@
                &&& final(w).client_at(cid.0 as int).pawn == None::<EntityId>
                &&& final(w).client_at(cid.0 as int).current_input == InputBits(0)
                &&& final(w).client_at(cid.0 as int).chunk_offset == chunk_offset
                &&& final(w).client_at(cid.0 as int).child_entities@.len() == 0
                &&& final(w).client_at(cid.0 as int).child_inventories@.len() == 0
                &&& final(w).clients.stable_of(cid.0 as int) == crate::types::NO_STABLE_ID
                &&& (forall|s: StableId| #[trigger] final(w).clients.spec_transient_of(s) == old(w).clients.spec_transient_of(s))
                &&& clients_same_except(*old(w), *final(w), cid.0 as int)
                &&& final(w).entities == old(w).entities
                &&& final(w).structures == old(w).structures
                &&& final(w).inventories == old(w).inventories
                &&& final(w).terrain_chunks == old(w).terrain_chunks
                &&& final(w).structures_by_chunk == old(w).structures_by_chunk
                &&& final(w).data == old(w).data
                &&& final(hooks)@ == old(hooks)@.push(HookEvent::ClientCreate(cid))
            },
            Err(_) => {
                &&& *final(w) == *old(w)
                &&& final(hooks)@ == old(hooks)@
                &&& old(w).clients.spec_len() == old(w).clients.spec_limit()
            },
        },
{
    let c = Client {
        name: name.to_owned(),
        pawn: None,
        current_input: InputBits::empty(),
        chunk_offset,
        view_state: ViewState::new(V2 { x: 0, y: 0 }),
        child_entities: Vec::new(),
        child_inventories: Vec::new(),
    };
    match w.clients.insert(c) {
        Ok(i) => {
            let cid = ClientId(i as u16);
            proof {
                lemma_create_preserves_client(*old(w), *w, i as int);
            }
            hooks.push(HookEvent::ClientCreate(cid));
            Ok(cid)
        },
        Err(()) => Err("client id space exhausted"),
    }
}

/// Adds an empty placeholder client, for the save loader; never fires hooks.
pub fn client_create_unchecked(w: &mut World) -> (r: OpResult<ClientId>)
    requires
        old(w).wf(),
    ensures
        match r {
            Ok(cid) => {
                &&& final(w).wf()
                &&& !old(w).client_live(cid.0 as int)
                &&& final(w).client_live(cid.0 as int)
                &&& final(w).clients.stable_of(cid.0 as int) == crate::types::NO_STABLE_ID
                &&& (forall|s: StableId| #[trigger] final(w).clients.spec_transient_of(s) == old(w).clients.spec_transient_of(s))
                &&& clients_same_except(*old(w), *final(w), cid.0 as int)
                &&& final(w).entities == old(w).entities
                &&& final(w).structures == old(w).structures
                &&& final(w).inventories == old(w).inventories
                &&& final(w).terrain_chunks == old(w).terrain_chunks
                &&& final(w).structures_by_chunk == old(w).structures_by_chunk
                &&& final(w).data == old(w).data
            },
            Err(_) => *final(w) == *old(w) && old(w).clients.spec_len() == old(w).clients.spec_limit(),
        },
{
    let c = Client {
        name: String::new(),
        pawn: None,
        current_input: InputBits::empty(),
        chunk_offset: (0, 0),
        view_state: ViewState::new(V2 { x: 0, y: 0 }),
        child_entities: Vec::new(),
        child_inventories: Vec::new(),
    };
    match w.clients.insert(c) {
        Ok(i) => {
            proof {
                lemma_create_preserves_client(*old(w), *w, i as int);
            }
            Ok(ClientId(i as u16))
        },
        Err(()) => Err("client id space exhausted"),
    }
}

/// After inserting a fresh well-formed client into slot `x` (children empty,
/// pawn none), the whole world is still well-formed.
proof fn lemma_create_preserves_client(wo: World, wn: World, x: int)
    requires
        wo.wf(),
        clients_same_except(wo, wn, x),
        wn.client_live(x),
        !wo.client_live(x),
        wn.client_at(x).pawn == None::<EntityId>,
        wn.client_at(x).child_entities@.len() == 0,
        wn.client_at(x).child_inventories@.len() == 0,
        wn.clients.wf(),
        wn.clients.spec_limit() == 0xFFFF,
        wn.entities == wo.entities,
        wn.structures == wo.structures,
        wn.inventories == wo.inventories,
        wn.terrain_chunks == wo.terrain_chunks,
        wn.structures_by_chunk == wo.structures_by_chunk,
        wn.data == wo.data,
    ensures
        wn.wf(),
{
    assert forall|c: int| #[trigger] wn.client_live(c) implies wn.wf_client_obj(c) by {
        if c != x {
            assert(wo.wf_client_obj(c));
        }
    }
    assert forall|e: int| #[trigger] wn.entity_live(e) implies wn.wf_entity_obj(e, None) by {
        assert(wo.entity_live(e));
        assert(wo.wf_entity_obj(e, None));
        match wn.entity_at(e).attachment {
            EntityAttachment::Client(cid) => {
                assert(wo.client_live(cid.0 as int));
                assert(cid.0 as int != x);
            },
            _ => {},
        }
    }
    assert forall|s: int| #[trigger] wn.structure_live(s) implies wn.wf_structure_obj(s, None) by {
        assert(wo.structure_live(s));
        assert(wo.wf_structure_obj(s, None));
    }
    assert forall|i: int| #[trigger] wn.inventory_live(i) implies wn.wf_inventory_obj(
        i,
        None,
        Set::empty(),
        None,
    ) by {
        assert(wo.inventory_live(i));
        assert(wo.wf_inventory_obj(i, None, Set::empty(), None));
        match wn.inventory_at(i).attachment {
            InventoryAttachment::Client(cid) => {
                assert(wo.client_live(cid.0 as int));
                assert(cid.0 as int != x);
            },
            _ => {},
        }
    }
    assert forall|cpos: V2| match #[trigger] wn.chunk_at(cpos) {
        Some(tc) => wn.wf_chunk_obj(cpos, tc),
        None => true,
    } by {
        match wn.chunk_at(cpos) {
            Some(tc) => {
                assert(wo.chunk_at(cpos) == Some(tc));
                assert(wo.wf_chunk_obj(cpos, tc));
            },
            None => {},
        }
    }
    lemma_sbc_unchanged(wo, wn);
}

// ------------------------------------------------------------------
// entity ops

/// Adds a fresh entity, stationary at `pos`, attached to the world.
pub fn entity_create(
    w: &mut World,
    hooks: &mut Vec<HookEvent>,
    pos: V3,
    anim: AnimId,
    appearance: u32,
) -> (r: OpResult<EntityId>)
    requires
        old(w).wf(),
        -COORD_LIMIT <= pos.x <= COORD_LIMIT,
        -COORD_LIMIT <= pos.y <= COORD_LIMIT,
        -COORD_LIMIT <= pos.z <= COORD_LIMIT,
    ensures
        match r {
            Ok(eid) => {
                &&& final(w).wf()
                &&& !old(w).entity_live(eid.0 as int)
                &&& final(w).entity_live(eid.0 as int)
                &&& final(w).entity_at(eid.0 as int).motion == Motion {
                    start_pos: pos,
                    end_pos: pos,
                    start_time: 0,
                    duration: 0,
                }
                &&& final(w).entity_at(eid.0 as int).anim == anim
                &&& final(w).entity_at(eid.0 as int).appearance == appearance
                &&& final(w).entity_at(eid.0 as int).attachment == EntityAttachment::World
                &&& final(w).entity_at(eid.0 as int).child_inventories@.len() == 0
                &&& final(w).entities.stable_of(eid.0 as int) == crate::types::NO_STABLE_ID
                &&& (forall|s: StableId| #[trigger] final(w).entities.spec_transient_of(s)
                    == old(w).entities.spec_transient_of(s))
                &&& entities_same_except(*old(w), *final(w), eid.0 as int)
                &&& final(w).clients == old(w).clients
                &&& final(w).structures == old(w).structures
                &&& final(w).inventories == old(w).inventories
                &&& final(w).terrain_chunks == old(w).terrain_chunks
                &&& final(w).structures_by_chunk == old(w).structures_by_chunk
                &&& final(w).data == old(w).data
                &&& final(hooks)@ == old(hooks)@.push(HookEvent::EntityCreate(eid))
            },
            Err(_) => {
                &&& *final(w) == *old(w)
                &&& final(hooks)@ == old(hooks)@
                &&& old(w).entities.spec_len() == old(w).entities.spec_limit()
            },
        },
{
    let e = Entity {
        motion: Motion::fixed(pos),
        anim,
        facing: V3 { x: 1, y: 0, z: 0 },
        target_velocity: V3 { x: 0, y: 0, z: 0 },
        appearance,
        attachment: EntityAttachment::World,
        child_inventories: Vec::new(),
    };
    match w.entities.insert(e) {
        Ok(i) => {
            let eid = EntityId(i);
            proof {
                lemma_create_preserves_entity(*old(w), *w, i as int);
            }
            hooks.push(HookEvent::EntityCreate(eid));
            Ok(eid)
        },
        Err(()) => Err("entity id space exhausted"),
    }
}

/// Adds a placeholder entity for the save loader; never fires hooks.
pub fn entity_create_unchecked(w: &mut World) -> (r: OpResult<EntityId>)
    requires
        old(w).wf(),
    ensures
        match r {
            Ok(eid) => {
                &&& final(w).wf()
                &&& !old(w).entity_live(eid.0 as int)
                &&& final(w).entity_live(eid.0 as int)
                &&& final(w).entities.stable_of(eid.0 as int) == crate::types::NO_STABLE_ID
                &&& (forall|s: StableId| #[trigger] final(w).entities.spec_transient_of(s)
                    == old(w).entities.spec_transient_of(s))
                &&& entities_same_except(*old(w), *final(w), eid.0 as int)
                &&& final(w).clients == old(w).clients
                &&& final(w).structures == old(w).structures
                &&& final(w).inventories == old(w).inventories
                &&& final(w).terrain_chunks == old(w).terrain_chunks
                &&& final(w).structures_by_chunk == old(w).structures_by_chunk
                &&& final(w).data == old(w).data
            },
            Err(_) => *final(w) == *old(w) && old(w).entities.spec_len() == old(w).entities.spec_limit(),
        },
{
    let e = Entity {
        motion: Motion::fixed(V3 { x: 0, y: 0, z: 0 }),
        anim: 0,
        facing: V3 { x: 0, y: 0, z: 0 },
        target_velocity: V3 { x: 0, y: 0, z: 0 },
        appearance: 0,
        attachment: EntityAttachment::World,
        child_inventories: Vec::new(),
    };
    match w.entities.insert(e) {
        Ok(i) => {
            proof {
                lemma_create_preserves_entity(*old(w), *w, i as int);
            }
            Ok(EntityId(i))
        },
        Err(()) => Err("entity id space exhausted"),
    }
}

/// After inserting a fresh world-attached entity with no children into slot
/// `x`, the world is still well-formed.
proof fn lemma_create_preserves_entity(wo: World, wn: World, x: int)
    requires
        wo.wf(),
        entities_same_except(wo, wn, x),
        wn.entity_live(x),
        !wo.entity_live(x),
        wn.entity_at(x).attachment == EntityAttachment::World,
        wn.entity_at(x).child_inventories@.len() == 0,
        wn.entity_at(x).motion.in_bounds(),
        wn.entity_at(x).motion.start_time == 0,
        wn.entities.wf(),
        wn.clients == wo.clients,
        wn.structures == wo.structures,
        wn.inventories == wo.inventories,
        wn.terrain_chunks == wo.terrain_chunks,
        wn.structures_by_chunk == wo.structures_by_chunk,
        wn.data == wo.data,
        wn.clients.spec_limit() == 0xFFFF,
    ensures
        wn.wf(),
{
    assert forall|c: int| #[trigger] wn.client_live(c) implies wn.wf_client_obj(c) by {
        assert(wo.client_live(c));
        assert(wo.wf_client_obj(c));
        let obj = wn.client_at(c);
        match obj.pawn {
            Some(pe) => {
                assert(wo.entity_live(pe.0 as int));
                assert(pe.0 as int != x);
            },
            None => {},
        }
        assert forall|j: int| 0 <= j < obj.child_entities@.len() implies wn.entity_live(
            obj.child_entities@[j] as int,
        ) && wn.entity_at(obj.child_entities@[j] as int).attachment == EntityAttachment::Client(
            ClientId(c as u16),
        ) by {
            assert(wo.entity_live(obj.child_entities@[j] as int));
            assert(obj.child_entities@[j] as int != x);
        }
    }
    assert forall|e: int| #[trigger] wn.entity_live(e) implies wn.wf_entity_obj(e, None) by {
        if e != x {
            assert(wo.entity_live(e));
            assert(wo.wf_entity_obj(e, None));
        }
    }
    assert forall|s: int| #[trigger] wn.structure_live(s) implies wn.wf_structure_obj(s, None) by {
        assert(wo.structure_live(s));
        assert(wo.wf_structure_obj(s, None));
    }
    assert forall|i: int| #[trigger] wn.inventory_live(i) implies wn.wf_inventory_obj(
        i,
        None,
        Set::empty(),
        None,
    ) by {
        assert(wo.inventory_live(i));
        assert(wo.wf_inventory_obj(i, None, Set::empty(), None));
        match wn.inventory_at(i).attachment {
            InventoryAttachment::Entity(eid) => {
                assert(wo.entity_live(eid.0 as int));
                assert(eid.0 as int != x);
            },
            _ => {},
        }
    }
    assert forall|cpos: V2| match #[trigger] wn.chunk_at(cpos) {
        Some(tc) => wn.wf_chunk_obj(cpos, tc),
        None => true,
    } by {
        match wn.chunk_at(cpos) {
            Some(tc) => {
                assert(wo.chunk_at(cpos) == Some(tc));
                assert(wo.wf_chunk_obj(cpos, tc));
            },
            None => {},
        }
    }
    lemma_sbc_unchanged(wo, wn);
}

// ------------------------------------------------------------------
// inventory create / update

/// Adds a fresh empty inventory attached to the world.
pub fn inventory_create(w: &mut World, hooks: &mut Vec<HookEvent>) -> (r: OpResult<InventoryId>)
    requires
        old(w).wf(),
    ensures
        match r {
            Ok(iid) => {
                &&& final(w).wf()
                &&& !old(w).inventory_live(iid.0 as int)
                &&& final(w).inventory_live(iid.0 as int)
                &&& final(w).inventory_at(iid.0 as int).attachment == InventoryAttachment::World
                &&& forall|k: u64| #[trigger]
                    final(w).inventory_at(iid.0 as int).contents.spec_get(k) == None::<u8>
                &&& final(w).inventories.stable_of(iid.0 as int) == crate::types::NO_STABLE_ID
                &&& (forall|s: StableId| #[trigger] final(w).inventories.spec_transient_of(s)
                    == old(w).inventories.spec_transient_of(s))
                &&& inventories_same_except(*old(w), *final(w), iid.0 as int)
                &&& final(w).clients == old(w).clients
                &&& final(w).entities == old(w).entities
                &&& final(w).structures == old(w).structures
                &&& final(w).terrain_chunks == old(w).terrain_chunks
                &&& final(w).structures_by_chunk == old(w).structures_by_chunk
                &&& final(w).data == old(w).data
                &&& final(hooks)@ == old(hooks)@.push(HookEvent::InventoryCreate(iid))
            },
            Err(_) => {
                &&& *final(w) == *old(w)
                &&& final(hooks)@ == old(hooks)@
                &&& old(w).inventories.spec_len() == old(w).inventories.spec_limit()
            },
        },
{
    match inventory_create_unchecked(w) {
        Ok(iid) => {
            hooks.push(HookEvent::InventoryCreate(iid));
            Ok(iid)
        },
        Err(e) => Err(e),
    }
}

/// Adds a fresh empty inventory without firing hooks, for the save loader.
pub fn inventory_create_unchecked(w: &mut World) -> (r: OpResult<InventoryId>)
    requires
        old(w).wf(),
    ensures
        match r {
            Ok(iid) => {
                &&& final(w).wf()
                &&& !old(w).inventory_live(iid.0 as int)
                &&& final(w).inventory_live(iid.0 as int)
                &&& final(w).inventory_at(iid.0 as int).attachment == InventoryAttachment::World
                &&& forall|k: u64| #[trigger]
                    final(w).inventory_at(iid.0 as int).contents.spec_get(k) == None::<u8>
                &&& final(w).inventories.stable_of(iid.0 as int) == crate::types::NO_STABLE_ID
                &&& (forall|s: StableId| #[trigger] final(w).inventories.spec_transient_of(s)
                    == old(w).inventories.spec_transient_of(s))
                &&& inventories_same_except(*old(w), *final(w), iid.0 as int)
                &&& final(w).clients == old(w).clients
                &&& final(w).entities == old(w).entities
                &&& final(w).structures == old(w).structures
                &&& final(w).terrain_chunks == old(w).terrain_chunks
                &&& final(w).structures_by_chunk == old(w).structures_by_chunk
                &&& final(w).data == old(w).data
            },
            Err(_) => *final(w) == *old(w) && old(w).inventories.spec_len() == old(w).inventories.spec_limit(),
        },
{
    let inv = Inventory { contents: VecMap::new(), attachment: InventoryAttachment::World };
    match w.inventories.insert(inv) {
        Ok(i) => {
            proof {
                lemma_create_preserves_inventory(*old(w), *w, i as int);
            }
            Ok(InventoryId(i))
        },
        Err(()) => Err("inventory id space exhausted"),
    }
}

/// After inserting a fresh world-attached empty inventory into slot `x`, the
/// world is still well-formed.
proof fn lemma_create_preserves_inventory(wo: World, wn: World, x: int)
    requires
        wo.wf(),
        inventories_same_except(wo, wn, x),
        wn.inventory_live(x),
        !wo.inventory_live(x),
        wn.inventory_at(x).attachment == InventoryAttachment::World,
        wn.inventory_at(x).contents.wf(),
        forall|k: u64| #[trigger] wn.inventory_at(x).contents.spec_get(k) == None::<u8>,
        forall|k: u64| !wn.inventory_at(x).contents.spec_contains(k),
        wn.inventories.wf(),
        wn.clients == wo.clients,
        wn.entities == wo.entities,
        wn.structures == wo.structures,
        wn.terrain_chunks == wo.terrain_chunks,
        wn.structures_by_chunk == wo.structures_by_chunk,
        wn.data == wo.data,
        wn.clients.spec_limit() == 0xFFFF,
    ensures
        wn.wf(),
{
    assert forall|c: int| #[trigger] wn.client_live(c) implies wn.wf_client_obj(c) by {
        assert(wo.client_live(c));
        assert(wo.wf_client_obj(c));
        let obj = wn.client_at(c);
        assert forall|j: int| 0 <= j < obj.child_inventories@.len() implies wn.inventory_live(
            obj.child_inventories@[j] as int,
        ) && wn.inventory_at(obj.child_inventories@[j] as int).attachment
            == InventoryAttachment::Client(ClientId(c as u16)) by {
            assert(wo.inventory_live(obj.child_inventories@[j] as int));
            assert(obj.child_inventories@[j] as int != x);
        }
    }
    assert forall|e: int| #[trigger] wn.entity_live(e) implies wn.wf_entity_obj(e, None) by {
        assert(wo.entity_live(e));
        assert(wo.wf_entity_obj(e, None));
        let obj = wn.entity_at(e);
        assert forall|j: int| 0 <= j < obj.child_inventories@.len() implies wn.inventory_live(
            obj.child_inventories@[j] as int,
        ) && wn.inventory_at(obj.child_inventories@[j] as int).attachment
            == InventoryAttachment::Entity(EntityId(e as u32)) by {
            assert(wo.inventory_live(obj.child_inventories@[j] as int));
            assert(obj.child_inventories@[j] as int != x);
        }
    }
    assert forall|s: int| #[trigger] wn.structure_live(s) implies wn.wf_structure_obj(s, None) by {
        assert(wo.structure_live(s));
        assert(wo.wf_structure_obj(s, None));
        let obj = wn.structure_at(s);
        assert forall|j: int| 0 <= j < obj.child_inventories@.len() implies wn.inventory_live(
            obj.child_inventories@[j] as int,
        ) && wn.inventory_at(obj.child_inventories@[j] as int).attachment
            == InventoryAttachment::Structure(StructureId(s as u32)) by {
            assert(wo.inventory_live(obj.child_inventories@[j] as int));
            assert(obj.child_inventories@[j] as int != x);
        }
    }
    assert forall|i: int| #[trigger] wn.inventory_live(i) implies wn.wf_inventory_obj(
        i,
        None,
        Set::empty(),
        None,
    ) by {
        if i != x {
            assert(wo.inventory_live(i));
            assert(wo.wf_inventory_obj(i, None, Set::empty(), None));
        }
    }
    assert forall|cpos: V2| match #[trigger] wn.chunk_at(cpos) {
        Some(tc) => wn.wf_chunk_obj(cpos, tc),
        None => true,
    } by {
        match wn.chunk_at(cpos) {
            Some(tc) => {
                assert(wo.chunk_at(cpos) == Some(tc));
                assert(wo.wf_chunk_obj(cpos, tc));
            },
            None => {},
        }
    }
    lemma_sbc_unchanged(wo, wn);
}

/// Saturating item-count adjustment: clamps `old + adjust` into `0 ..= 255`.
pub fn update_item_count(old_count: u8, adjust: i16) -> (r: u8)
    ensures
        r as int == spec_update_item_count(old_count as int, adjust as int),
{
    let sum: i32 = old_count as i32 + adjust as i32;
    if sum < 0 {
        0
    } else if sum > 255 {
        255
    } else {
        sum as u8
    }
}

pub open spec fn spec_update_item_count(old_count: int, adjust: int) -> int {
    if old_count + adjust < 0 {
        0
    } else if old_count + adjust > 255 {
        255
    } else {
        old_count + adjust
    }
}

/// Adjusts the count of `item_id` in inventory `iid`, saturating at 0 and
/// 255; a zero count removes the entry.  Fails only if `iid` is not valid.
pub fn inventory_update(
    w: &mut World,
    hooks: &mut Vec<HookEvent>,
    iid: InventoryId,
    item_id: ItemId,
    adjust: i16,
) -> (r: OpResult<u8>)
    requires
        old(w).wf(),
    ensures
        match r {
            Ok(new_count) => {
                &&& final(w).wf()
                &&& old(w).inventory_live(iid.0 as int)
                &&& final(w).inventory_live(iid.0 as int)
                &&& new_count as int == spec_update_item_count(
                    spec_inv_count(*old(w), iid.0 as int, item_id),
                    adjust as int,
                )
                &&& spec_inv_count(*final(w), iid.0 as int, item_id) == new_count as int
                &&& forall|k: u64|
                    k != item_id as u64 ==> #[trigger] final(w).inventory_at(
                        iid.0 as int,
                    ).contents.spec_get(k) == old(w).inventory_at(iid.0 as int).contents.spec_get(
                        k,
                    )
                &&& final(w).inventory_at(iid.0 as int).attachment == old(w).inventory_at(
                    iid.0 as int,
                ).attachment
                &&& inventories_same_except(*old(w), *final(w), iid.0 as int)
                &&& final(w).inventories.stable_of(iid.0 as int) == old(w).inventories.stable_of(
                    iid.0 as int,
                )
                &&& final(w).clients == old(w).clients
                &&& final(w).entities == old(w).entities
                &&& final(w).structures == old(w).structures
                &&& final(w).terrain_chunks == old(w).terrain_chunks
                &&& final(w).structures_by_chunk == old(w).structures_by_chunk
                &&& final(w).data == old(w).data
                &&& final(hooks)@ == old(hooks)@.push(
                    HookEvent::InventoryUpdate(
                        iid,
                        item_id,
                        spec_inv_count(*old(w), iid.0 as int, item_id) as u8,
                        new_count,
                    ),
                )
            },
            Err(_) => {
                &&& *final(w) == *old(w)
                &&& final(hooks)@ == old(hooks)@
                &&& !old(w).inventory_live(iid.0 as int)
            },
        },
{
    let ghost wo = *old(w);
    let (old_value, new_value) = match w.inventories.get_mut(iid.0) {
        Some(inv) => {
            proof {
                assert(wo.inventory_live(iid.0 as int));
                assert(wo.wf_inventory_obj(iid.0 as int, None, Set::empty(), None));
            }
            let old_value: u8 = match inv.contents.get(item_id as u64) {
                Some(v) => *v,
                None => 0,
            };
            let new_value = update_item_count(old_value, adjust);
            if new_value == 0 {
                inv.contents.remove(item_id as u64);
            } else {
                inv.contents.insert(item_id as u64, new_value);
            }
            (old_value, new_value)
        },
        None => {
            return Err("no inventory with given id");
        },
    };
    proof {
        lemma_inventory_update_preserves(wo, *w, iid.0 as int);
    }
    hooks.push(HookEvent::InventoryUpdate(iid, item_id, old_value, new_value));
    Ok(new_value)
}

/// Count of `item` in inventory `i` (0 when absent).
pub open spec fn spec_inv_count(w: World, i: int, item: ItemId) -> int {
    match w.inventory_at(i).contents.spec_get(item as u64) {
        Some(v) => v as int,
        None => 0,
    }
}

/// Changing only the contents of one inventory (keeping counts nonzero and
/// keys small) preserves world well-formedness.
proof fn lemma_inventory_update_preserves(wo: World, wn: World, x: int)
    requires
        wo.wf(),
        inventories_same_except(wo, wn, x),
        wo.inventory_live(x),
        wn.inventory_live(x),
        wn.inventory_at(x).attachment == wo.inventory_at(x).attachment,
        wn.inventory_at(x).contents.wf(),
        forall|k: u64| wn.inventory_at(x).contents.spec_contains(k) ==> k <= 0xFFFF,
        forall|k: u64| #[trigger] wn.inventory_at(x).contents.spec_get(k) != Some(0u8),
        wn.inventories.wf(),
        wn.clients == wo.clients,
        wn.entities == wo.entities,
        wn.structures == wo.structures,
        wn.terrain_chunks == wo.terrain_chunks,
        wn.structures_by_chunk == wo.structures_by_chunk,
        wn.data == wo.data,
        wn.clients.spec_limit() == 0xFFFF,
    ensures
        wn.wf(),
{
    assert forall|c: int| #[trigger] wn.client_live(c) implies wn.wf_client_obj(c) by {
        assert(wo.client_live(c));
        assert(wo.wf_client_obj(c));
        let obj = wn.client_at(c);
        assert forall|j: int| 0 <= j < obj.child_inventories@.len() implies wn.inventory_live(
            obj.child_inventories@[j] as int,
        ) && wn.inventory_at(obj.child_inventories@[j] as int).attachment
            == InventoryAttachment::Client(ClientId(c as u16)) by {
            assert(wo.inventory_live(obj.child_inventories@[j] as int));
            if obj.child_inventories@[j] as int == x {
                assert(wn.inventory_at(x).attachment == wo.inventory_at(x).attachment);
            }
        }
    }
    assert forall|e: int| #[trigger] wn.entity_live(e) implies wn.wf_entity_obj(e, None) by {
        assert(wo.entity_live(e));
        assert(wo.wf_entity_obj(e, None));
        let obj = wn.entity_at(e);
        assert forall|j: int| 0 <= j < obj.child_inventories@.len() implies wn.inventory_live(
            obj.child_inventories@[j] as int,
        ) && wn.inventory_at(obj.child_inventories@[j] as int).attachment
            == InventoryAttachment::Entity(EntityId(e as u32)) by {
            assert(wo.inventory_live(obj.child_inventories@[j] as int));
            if obj.child_inventories@[j] as int == x {
                assert(wn.inventory_at(x).attachment == wo.inventory_at(x).attachment);
            }
        }
    }
    assert forall|s: int| #[trigger] wn.structure_live(s) implies wn.wf_structure_obj(s, None) by {
        assert(wo.structure_live(s));
        assert(wo.wf_structure_obj(s, None));
        let obj = wn.structure_at(s);
        assert forall|j: int| 0 <= j < obj.child_inventories@.len() implies wn.inventory_live(
            obj.child_inventories@[j] as int,
        ) && wn.inventory_at(obj.child_inventories@[j] as int).attachment
            == InventoryAttachment::Structure(StructureId(s as u32)) by {
            assert(wo.inventory_live(obj.child_inventories@[j] as int));
            if obj.child_inventories@[j] as int == x {
                assert(wn.inventory_at(x).attachment == wo.inventory_at(x).attachment);
            }
        }
    }
    assert forall|i: int| #[trigger] wn.inventory_live(i) implies wn.wf_inventory_obj(
        i,
        None,
        Set::empty(),
        None,
    ) by {
        assert(wo.inventory_live(i));
        assert(wo.wf_inventory_obj(i, None, Set::empty(), None));
        if i != x {
            assert(wn.inventory_at(i) == wo.inventory_at(i));
        }
    }
    assert forall|cpos: V2| match #[trigger] wn.chunk_at(cpos) {
        Some(tc) => wn.wf_chunk_obj(cpos, tc),
        None => true,
    } by {
        match wn.chunk_at(cpos) {
            Some(tc) => {
                assert(wo.chunk_at(cpos) == Some(tc));
                assert(wo.wf_chunk_obj(cpos, tc));
            },
            None => {},
        }
    }
    lemma_sbc_unchanged(wo, wn);
}


// ------------------------------------------------------------------
// attach ops

/// Whether attachment `a` names client slot `c`.
pub open spec fn is_attach_client(a: EntityAttachment, c: int) -> bool {
    match a {
        EntityAttachment::Client(cid) => cid.0 as int == c,
        _ => false,
    }
}

/// Everything `entity_attach` changes, relating the worlds before and after:
/// the entity's attachment, the new parent's child set, and the old parent's
/// child set and possibly pawn.
pub open spec fn entity_attach_frame(
    wo: World,
    wn: World,
    e: int,
    oa: EntityAttachment,
    na: EntityAttachment,
) -> bool {
    &&& wo.entity_live(e)
    &&& wn.entity_live(e)
    &&& oa == wo.entity_at(e).attachment
    &&& wn.entity_at(e) == (Entity { attachment: na, ..wo.entity_at(e) })
    &&& entities_same_except(wo, wn, e)
    &&& wn.entities.wf()
    &&& wn.clients.wf()
    &&& wn.clients.spec_limit() == wo.clients.spec_limit()
    &&& wn.clients.spec_next_stable() == wo.clients.spec_next_stable()
    &&& forall|c: int|
        !is_attach_client(na, c) && !is_attach_client(oa, c) ==> {
            &&& wo.client_live(c) == wn.client_live(c)
            &&& (wo.client_live(c) ==> wn.client_at(c) == wo.client_at(c)
                && wn.clients.stable_of(c) == wo.clients.stable_of(c))
        }
    &&& forall|c: int|
        #[trigger] is_attach_client(na, c) ==> {
            &&& wo.client_live(c)
            &&& wn.client_live(c)
            &&& wn.clients.stable_of(c) == wo.clients.stable_of(c)
            &&& sorted_unique(wn.client_at(c).child_entities@)
            &&& (forall|y: u32| #[trigger]
                contains_id(wn.client_at(c).child_entities@, y) == (contains_id(
                    wo.client_at(c).child_entities@,
                    y,
                ) || y == e as u32))
            &&& wn.client_at(c) == (Client {
                child_entities: wn.client_at(c).child_entities,
                ..wo.client_at(c)
            })
        }
    &&& forall|c: int|
        #[trigger] is_attach_client(oa, c) ==> {
            &&& wo.client_live(c)
            &&& wn.client_live(c)
            &&& wn.clients.stable_of(c) == wo.clients.stable_of(c)
            &&& sorted_unique(wn.client_at(c).child_entities@)
            &&& (forall|y: u32| #[trigger]
                contains_id(wn.client_at(c).child_entities@, y) == (contains_id(
                    wo.client_at(c).child_entities@,
                    y,
                ) && y != e as u32))
            &&& wn.client_at(c).pawn == (if wo.client_at(c).pawn == Some(EntityId(e as u32)) {
                None::<EntityId>
            } else {
                wo.client_at(c).pawn
            })
            &&& wn.client_at(c) == (Client {
                child_entities: wn.client_at(c).child_entities,
                pawn: wn.client_at(c).pawn,
                ..wo.client_at(c)
            })
        }
    &&& wn.inventories == wo.inventories
    &&& wn.structures == wo.structures
    &&& wn.terrain_chunks == wo.terrain_chunks
    &&& wn.structures_by_chunk == wo.structures_by_chunk
    &&& wn.data == wo.data
}

/// Re-parents entity `eid`.  `Chunk` attachment is reserved and rejected.
/// On success returns the previous attachment.  If the entity was the old
/// parent client's pawn, the pawn slot is cleared.
pub fn entity_attach(w: &mut World, eid: EntityId, new_attach: EntityAttachment) -> (r: OpResult<
    EntityAttachment,
>)
    requires
        old(w).wf(),
    ensures
        final(w).wf(),
        match r {
            Ok(prev) => {
                &&& old(w).entity_live(eid.0 as int)
                &&& prev == old(w).entity_at(eid.0 as int).attachment
                &&& final(w).entity_at(eid.0 as int).attachment == new_attach
                &&& !(new_attach is Chunk)
                &&& (prev == new_attach ==> *final(w) == *old(w))
                &&& (prev != new_attach ==> entity_attach_frame(
                    *old(w),
                    *final(w),
                    eid.0 as int,
                    prev,
                    new_attach,
                ))
            },
            Err(e) => {
                &&& *final(w) == *old(w)
                &&& (!old(w).entity_live(eid.0 as int) || new_attach is Chunk || (new_attach
                    matches EntityAttachment::Client(c) && !old(w).client_live(c.0 as int)
                    && old(w).entity_at(eid.0 as int).attachment != new_attach))
                &&& e@ == (if !old(w).entity_live(eid.0 as int) {
                    "no entity with given id"@
                } else if new_attach is Chunk {
                    "EntityAttachment::Chunk is not yet supported"@
                } else {
                    "can't attach entity to nonexistent client"@
                })
            },
        },
{
    let ghost wo = *old(w);
    let old_attach = match w.entities.get(eid.0) {
        Some(e) => e.attachment,
        None => {
            return Err("no entity with given id");
        },
    };
    proof {
        assert(wo.entity_live(eid.0 as int));
        assert(wo.wf_entity_obj(eid.0 as int, None));
    }
    if old_attach == new_attach {
        return Ok(new_attach);
    }
    match new_attach {
        EntityAttachment::World => {},
        EntityAttachment::Chunk => {
            return Err("EntityAttachment::Chunk is not yet supported");
        },
        EntityAttachment::Client(cid) => {
            match w.clients.get_mut(cid.0 as u32) {
                Some(c) => {
                    proof {
                        assert(wo.client_live(cid.0 as int));
                        assert(wo.wf_client_obj(cid.0 as int));
                    }
                    idset_insert(&mut c.child_entities, eid.0);
                },
                None => {
                    return Err("can't attach entity to nonexistent client");
                },
            }
        },
    }
    match w.entities.get_mut(eid.0) {
        Some(e) => {
            e.attachment = new_attach;
        },
        None => {
            proof {
                assert(false);
            }
        },
    }
    match old_attach {
        EntityAttachment::World => {},
        EntityAttachment::Chunk => {
            proof {
                assert(false);
            }
        },
        EntityAttachment::Client(ocid) => {
            proof {
                assert(wo.client_live(ocid.0 as int));
                assert(wo.wf_client_obj(ocid.0 as int));
            }
            match w.clients.get_mut(ocid.0 as u32) {
                Some(c) => {
                    let clear: bool = match c.pawn {
                        Some(p) => p.0 == eid.0,
                        None => false,
                    };
                    if clear {
                        c.pawn = None;
                    }
                    idset_remove(&mut c.child_entities, eid.0);
                },
                None => {
                    proof {
                        assert(false);
                    }
                },
            }
        },
    }
    proof {
        assert(entity_attach_frame(wo, *w, eid.0 as int, old_attach, new_attach));
        lemma_entity_attach_preserves(wo, *w, eid.0 as int, old_attach, new_attach);
    }
    Ok(old_attach)
}

/// The `entity_attach` frame preserves world well-formedness.
proof fn lemma_entity_attach_preserves(
    wo: World,
    wn: World,
    e: int,
    oa: EntityAttachment,
    na: EntityAttachment,
)
    requires
        wo.wf(),
        oa != na,
        !(na is Chunk),
        !(oa is Chunk),
        (na matches EntityAttachment::Client(nc) ==> wo.client_live(nc.0 as int)),
        entity_attach_frame(wo, wn, e, oa, na),
        0 <= e <= u32::MAX,
    ensures
        wn.wf(),
{
    assert forall|c: int| #[trigger] wn.client_live(c) implies wn.wf_client_obj(c) by {
        assert(wo.client_live(c)) by {
            if !is_attach_client(na, c) && !is_attach_client(oa, c) {
            }
        }
        wo.clients.lemma_live_bounds(c);
        wo.clients.lemma_len_le_limit();
        assert(0 <= c < 0x10000);
        assert((ClientId(c as u16).0 as int) == c);
        assert(wo.wf_client_obj(c));
        let obj = wn.client_at(c);
        let oldobj = wo.client_at(c);
        assert forall|j: int| 0 <= j < obj.child_entities@.len() implies wn.entity_live(
            obj.child_entities@[j] as int,
        ) && wn.entity_at(obj.child_entities@[j] as int).attachment == EntityAttachment::Client(
            ClientId(c as u16),
        ) by {
            let y = obj.child_entities@[j];
            assert(contains_id(obj.child_entities@, y));
            if is_attach_client(na, c) && y == e as u32 {
                assert(wn.entity_at(e).attachment == na);
                assert(na == EntityAttachment::Client(ClientId(c as u16)));
            } else {
                assert(contains_id(oldobj.child_entities@, y)) by {
                    if is_attach_client(oa, c) || is_attach_client(na, c) {
                    } else {
                        assert(obj == oldobj);
                    }
                }
                let j0 = choose|j0: int|
                    0 <= j0 < oldobj.child_entities@.len() && oldobj.child_entities@[j0] == y;
                assert(wo.entity_live(oldobj.child_entities@[j0] as int));
                assert(wo.entity_at(y as int).attachment == EntityAttachment::Client(
                    ClientId(c as u16),
                ));
                assert(y as int != e) by {
                    if y as int == e {
                        assert(is_attach_client(oa, c));
                        assert(!contains_id(obj.child_entities@, e as u32));
                    }
                }
                assert(wn.entity_at(y as int) == wo.entity_at(y as int));
            }
        }
        match obj.pawn {
            Some(pe) => {
                if pe.0 as int == e {
                    if is_attach_client(oa, c) {
                        assert(obj.pawn == None::<EntityId> || wo.client_at(c).pawn != Some(
                            EntityId(e as u32),
                        ));
                        assert(wo.client_at(c).pawn == Some(pe) ==> false);
                        assert(wo.wf_client_obj(c));
                        assert(false);
                    } else {
                        assert(oldobj.pawn == Some(pe));
                        assert(wo.entity_at(e).attachment == EntityAttachment::Client(
                            ClientId(c as u16),
                        ));
                        assert(is_attach_client(oa, c));
                        assert(false);
                    }
                } else {
                    assert(oldobj.pawn == Some(pe));
                    assert(wo.entity_live(pe.0 as int));
                    assert(wn.entity_at(pe.0 as int) == wo.entity_at(pe.0 as int));
                }
            },
            None => {},
        }
        assert(obj.child_inventories == oldobj.child_inventories);
        assert forall|j: int| 0 <= j < obj.child_inventories@.len() implies wn.inventory_live(
            obj.child_inventories@[j] as int,
        ) && wn.inventory_at(obj.child_inventories@[j] as int).attachment
            == InventoryAttachment::Client(ClientId(c as u16)) by {
            assert(wo.inventory_live(obj.child_inventories@[j] as int));
        }
    }
    assert forall|e2: int| #[trigger] wn.entity_live(e2) implies wn.wf_entity_obj(e2, None) by {
        assert(wo.entity_live(e2));
        assert(wo.wf_entity_obj(e2, None));
        let obj = wn.entity_at(e2);
        if e2 != e {
            assert(obj == wo.entity_at(e2));
        }
        match obj.attachment {
            EntityAttachment::Client(cid) => {
                let ci = cid.0 as int;
                if e2 == e {
                    assert(contains_id(wn.client_at(ci).child_entities@, e as u32));
                } else {
                    assert(wo.client_live(ci));
                    assert(contains_id(wo.client_at(ci).child_entities@, e2 as u32));
                    if is_attach_client(na, ci) {
                        assert(contains_id(wn.client_at(ci).child_entities@, e2 as u32));
                    } else if is_attach_client(oa, ci) {
                        wo.entities.lemma_live_bounds(e2);
                        wo.entities.lemma_len_le_limit();
                        assert(e2 as u32 != e as u32);
                        assert(contains_id(wn.client_at(ci).child_entities@, e2 as u32));
                    } else {
                        assert(wn.client_at(ci) == wo.client_at(ci));
                    }
                }
            },
            _ => {},
        }
        assert(obj.child_inventories == wo.entity_at(e2).child_inventories);
        assert forall|j: int| 0 <= j < obj.child_inventories@.len() implies wn.inventory_live(
            obj.child_inventories@[j] as int,
        ) && wn.inventory_at(obj.child_inventories@[j] as int).attachment
            == InventoryAttachment::Entity(EntityId(e2 as u32)) by {
            assert(wo.inventory_live(obj.child_inventories@[j] as int));
        }
    }
    assert forall|st: int| #[trigger] wn.structure_live(st) implies wn.wf_structure_obj(
        st,
        None,
    ) by {
        assert(wo.structure_live(st));
        assert(wo.wf_structure_obj(st, None));
    }
    assert forall|i: int| #[trigger] wn.inventory_live(i) implies wn.wf_inventory_obj(
        i,
        None,
        Set::empty(),
        None,
    ) by {
        assert(wo.inventory_live(i));
        assert(wo.wf_inventory_obj(i, None, Set::empty(), None));
        match wn.inventory_at(i).attachment {
            InventoryAttachment::Client(cid) => {
                let ci = cid.0 as int;
                assert(wo.client_live(ci));
                assert(contains_id(wo.client_at(ci).child_inventories@, i as u32));
                if is_attach_client(na, ci) || is_attach_client(oa, ci) {
                    assert(wn.client_at(ci).child_inventories == wo.client_at(
                        ci,
                    ).child_inventories);
                } else {
                    assert(wn.client_at(ci) == wo.client_at(ci));
                }
            },
            InventoryAttachment::Entity(eid2) => {
                assert(wo.entity_live(eid2.0 as int));
                if eid2.0 as int == e {
                    assert(wn.entity_at(e).child_inventories == wo.entity_at(
                        e,
                    ).child_inventories);
                }
            },
            _ => {},
        }
    }
    assert forall|cpos: V2| match #[trigger] wn.chunk_at(cpos) {
        Some(tc) => wn.wf_chunk_obj(cpos, tc),
        None => true,
    } by {
        match wn.chunk_at(cpos) {
            Some(tc) => {
                assert(wo.chunk_at(cpos) == Some(tc));
                assert(wo.wf_chunk_obj(cpos, tc));
            },
            None => {},
        }
    }
    lemma_sbc_unchanged(wo, wn);
}

/// Makes `eid` the pawn of `cid`, attaching it to the client first; returns
/// the previous pawn.  If the attach step fails the client is untouched.
pub fn client_set_pawn(
    w: &mut World,
    hooks: &mut Vec<HookEvent>,
    cid: ClientId,
    eid: EntityId,
) -> (r: OpResult<Option<EntityId>>)
    requires
        old(w).wf(),
    ensures
        final(w).wf(),
        match r {
            Ok(prev) => {
                &&& old(w).client_live(cid.0 as int)
                &&& final(w).client_live(cid.0 as int)
                &&& final(w).client_at(cid.0 as int).pawn == Some(eid)
                &&& final(w).entity_live(eid.0 as int)
                &&& final(w).entity_at(eid.0 as int).attachment == EntityAttachment::Client(cid)
                &&& prev == old(w).client_at(cid.0 as int).pawn
                &&& final(hooks)@ == old(hooks)@.push(
                    HookEvent::ClientChangePawn(cid, prev, Some(eid)),
                )
                &&& entities_same_except(*old(w), *final(w), eid.0 as int)
                &&& final(w).entity_at(eid.0 as int).child_inventories == old(w).entity_at(
                    eid.0 as int,
                ).child_inventories
                &&& final(w).entity_at(eid.0 as int).motion == old(w).entity_at(
                    eid.0 as int,
                ).motion
                &&& (forall|c2: int|
                    c2 != cid.0 as int && !is_attach_client(
                        old(w).entity_at(eid.0 as int).attachment,
                        c2,
                    ) ==> old(w).client_live(c2) == final(w).client_live(c2) && (old(w).client_live(c2) ==> final(w).client_at(c2) == old(w).client_at(c2)))
                &&& final(w).inventories == old(w).inventories
                &&& final(w).structures == old(w).structures
                &&& final(w).terrain_chunks == old(w).terrain_chunks
                &&& final(w).structures_by_chunk == old(w).structures_by_chunk
                &&& final(w).data == old(w).data
            },
            Err(e) => {
                &&& *final(w) == *old(w)
                &&& final(hooks)@ == old(hooks)@
                &&& (!old(w).entity_live(eid.0 as int) || (!old(w).client_live(cid.0 as int)
                    && old(w).entity_at(eid.0 as int).attachment != EntityAttachment::Client(
                    cid,
                )))
                &&& e@ == (if !old(w).entity_live(eid.0 as int) {
                    "no entity with given id"@
                } else {
                    "can't attach entity to nonexistent client"@
                })
            },
        },
{
    let ghost wo = *old(w);
    let ghost prev_attach = if wo.entity_live(eid.0 as int) {
        Some(wo.entity_at(eid.0 as int).attachment)
    } else {
        None::<EntityAttachment>
    };
    match entity_attach(w, eid, EntityAttachment::Client(cid)) {
        Ok(_) => {},
        Err(m) => {
            return Err(m);
        },
    }
    let ghost wm = *w;
    proof {
        assert(wm.client_live(cid.0 as int)) by {
            if prev_attach == Some(EntityAttachment::Client(cid)) {
                assert(wo.wf_entity_obj(eid.0 as int, None));
            }
        }
        assert(wm.client_at(cid.0 as int).pawn == wo.client_at(cid.0 as int).pawn) by {
            if prev_attach != Some(EntityAttachment::Client(cid)) {
                assert(entity_attach_frame(
                    wo,
                    wm,
                    eid.0 as int,
                    prev_attach->Some_0,
                    EntityAttachment::Client(cid),
                ));
                match prev_attach->Some_0 {
                    EntityAttachment::Client(oc) => {
                        if oc.0 == cid.0 {
                            assert(false);
                        }
                        if wo.client_at(oc.0 as int).pawn == Some(eid) {
                            assert(wo.wf_client_obj(oc.0 as int));
                        }
                    },
                    _ => {},
                }
            }
        }
    }
    let old_eid = match w.clients.get_mut(cid.0 as u32) {
        Some(c) => {
            let old_eid = c.pawn;
            c.pawn = Some(eid);
            old_eid
        },
        None => {
            proof {
                assert(false);
            }
            None
        },
    };
    proof {
        lemma_set_pawn_preserves(wm, *w, cid.0 as int, eid.0 as int);
    }
    hooks.push(HookEvent::ClientChangePawn(cid, old_eid, Some(eid)));
    Ok(old_eid)
}

/// Pointing a client's pawn at an entity already attached to it preserves
/// well-formedness.
proof fn lemma_set_pawn_preserves(wm: World, wn: World, c: int, e: int)
    requires
        wm.wf(),
        wm.client_live(c),
        wn.client_live(c),
        wm.entity_live(e),
        0 <= e <= u32::MAX,
        0 <= c < 0x10000,
        wm.entity_at(e).attachment == EntityAttachment::Client(ClientId(c as u16)),
        wn.client_at(c) == (Client { pawn: Some(EntityId(e as u32)), ..wm.client_at(c) }),
        clients_same_except(wm, wn, c),
        wn.clients.wf(),
        wn.clients.spec_limit() == 0xFFFF,
        wn.entities == wm.entities,
        wn.inventories == wm.inventories,
        wn.structures == wm.structures,
        wn.terrain_chunks == wm.terrain_chunks,
        wn.structures_by_chunk == wm.structures_by_chunk,
        wn.data == wm.data,
    ensures
        wn.wf(),
{
    assert forall|c2: int| #[trigger] wn.client_live(c2) implies wn.wf_client_obj(c2) by {
        assert(wm.client_live(c2));
        assert(wm.wf_client_obj(c2));
        if c2 != c {
            assert(wn.client_at(c2) == wm.client_at(c2));
        } else {
            assert(wn.client_at(c).child_entities == wm.client_at(c).child_entities);
            assert(wn.client_at(c).child_inventories == wm.client_at(c).child_inventories);
        }
    }
    assert forall|e2: int| #[trigger] wn.entity_live(e2) implies wn.wf_entity_obj(e2, None) by {
        assert(wm.entity_live(e2));
        assert(wm.wf_entity_obj(e2, None));
        match wn.entity_at(e2).attachment {
            EntityAttachment::Client(cid) => {
                assert(wm.client_live(cid.0 as int));
                if cid.0 as int == c {
                    assert(wn.client_at(c).child_entities == wm.client_at(c).child_entities);
                }
            },
            _ => {},
        }
    }
    assert forall|s: int| #[trigger] wn.structure_live(s) implies wn.wf_structure_obj(s, None) by {
        assert(wm.structure_live(s));
        assert(wm.wf_structure_obj(s, None));
    }
    assert forall|i: int| #[trigger] wn.inventory_live(i) implies wn.wf_inventory_obj(
        i,
        None,
        Set::empty(),
        None,
    ) by {
        assert(wm.inventory_live(i));
        assert(wm.wf_inventory_obj(i, None, Set::empty(), None));
        match wn.inventory_at(i).attachment {
            InventoryAttachment::Client(cid) => {
                assert(wm.client_live(cid.0 as int));
                if cid.0 as int == c {
                    assert(wn.client_at(c).child_inventories == wm.client_at(
                        c,
                    ).child_inventories);
                }
            },
            _ => {},
        }
    }
    assert forall|cpos: V2| match #[trigger] wn.chunk_at(cpos) {
        Some(tc) => wn.wf_chunk_obj(cpos, tc),
        None => true,
    } by {
        match wn.chunk_at(cpos) {
            Some(tc) => {
                assert(wm.chunk_at(cpos) == Some(tc));
                assert(wm.wf_chunk_obj(cpos, tc));
            },
            None => {},
        }
    }
    lemma_sbc_unchanged(wm, wn);
}

/// Clears the client's pawn slot, returning the previous pawn.
pub fn client_clear_pawn(w: &mut World, hooks: &mut Vec<HookEvent>, cid: ClientId) -> (r: OpResult<
    Option<EntityId>,
>)
    requires
        old(w).wf(),
    ensures
        final(w).wf(),
        match r {
            Ok(prev) => {
                &&& old(w).client_live(cid.0 as int)
                &&& final(w).client_live(cid.0 as int)
                &&& prev == old(w).client_at(cid.0 as int).pawn
                &&& final(w).client_at(cid.0 as int) == (Client {
                    pawn: None,
                    ..old(w).client_at(cid.0 as int)
                })
                &&& clients_same_except(*old(w), *final(w), cid.0 as int)
                &&& final(w).entities == old(w).entities
                &&& final(w).inventories == old(w).inventories
                &&& final(w).structures == old(w).structures
                &&& final(w).terrain_chunks == old(w).terrain_chunks
                &&& final(w).structures_by_chunk == old(w).structures_by_chunk
                &&& final(w).data == old(w).data
                &&& final(hooks)@ == old(hooks)@.push(
                    HookEvent::ClientChangePawn(cid, prev, None),
                )
            },
            Err(_) => {
                &&& *final(w) == *old(w)
                &&& final(hooks)@ == old(hooks)@
                &&& !old(w).client_live(cid.0 as int)
            },
        },
{
    let ghost wo = *old(w);
    let old_eid = match w.clients.get_mut(cid.0 as u32) {
        Some(c) => {
            let old_eid = c.pawn;
            c.pawn = None;
            old_eid
        },
        None => {
            return Err("no client with given id");
        },
    };
    proof {
        assert(wo.client_live(cid.0 as int));
        assert(wo.wf_client_obj(cid.0 as int));
        lemma_clear_pawn_preserves(wo, *w, cid.0 as int);
    }
    hooks.push(HookEvent::ClientChangePawn(cid, old_eid, None));
    Ok(old_eid)
}

/// Clearing a pawn slot (all else equal) preserves well-formedness.
proof fn lemma_clear_pawn_preserves(wo: World, wn: World, c: int)
    requires
        wo.wf(),
        wo.client_live(c),
        wn.client_live(c),
        wn.client_at(c) == (Client { pawn: None, ..wo.client_at(c) }),
        clients_same_except(wo, wn, c),
        wn.clients.wf(),
        wn.clients.spec_limit() == 0xFFFF,
        wn.entities == wo.entities,
        wn.inventories == wo.inventories,
        wn.structures == wo.structures,
        wn.terrain_chunks == wo.terrain_chunks,
        wn.structures_by_chunk == wo.structures_by_chunk,
        wn.data == wo.data,
    ensures
        wn.wf(),
{
    assert forall|c2: int| #[trigger] wn.client_live(c2) implies wn.wf_client_obj(c2) by {
        assert(wo.client_live(c2));
        assert(wo.wf_client_obj(c2));
        if c2 != c {
            assert(wn.client_at(c2) == wo.client_at(c2));
        } else {
            assert(wn.client_at(c).child_entities == wo.client_at(c).child_entities);
            assert(wn.client_at(c).child_inventories == wo.client_at(c).child_inventories);
        }
    }
    assert forall|e: int| #[trigger] wn.entity_live(e) implies wn.wf_entity_obj(e, None) by {
        assert(wo.entity_live(e));
        assert(wo.wf_entity_obj(e, None));
        match wn.entity_at(e).attachment {
            EntityAttachment::Client(cid) => {
                assert(wo.client_live(cid.0 as int));
                if cid.0 as int == c {
                    assert(wn.client_at(c).child_entities == wo.client_at(c).child_entities);
                }
            },
            _ => {},
        }
    }
    assert forall|s: int| #[trigger] wn.structure_live(s) implies wn.wf_structure_obj(s, None) by {
        assert(wo.structure_live(s));
        assert(wo.wf_structure_obj(s, None));
    }
    assert forall|i: int| #[trigger] wn.inventory_live(i) implies wn.wf_inventory_obj(
        i,
        None,
        Set::empty(),
        None,
    ) by {
        assert(wo.inventory_live(i));
        assert(wo.wf_inventory_obj(i, None, Set::empty(), None));
        match wn.inventory_at(i).attachment {
            InventoryAttachment::Client(cid) => {
                assert(wo.client_live(cid.0 as int));
                if cid.0 as int == c {
                    assert(wn.client_at(c).child_inventories == wo.client_at(
                        c,
                    ).child_inventories);
                }
            },
            _ => {},
        }
    }
    assert forall|cpos: V2| match #[trigger] wn.chunk_at(cpos) {
        Some(tc) => wn.wf_chunk_obj(cpos, tc),
        None => true,
    } by {
        match wn.chunk_at(cpos) {
            Some(tc) => {
                assert(wo.chunk_at(cpos) == Some(tc));
                assert(wo.wf_chunk_obj(cpos, tc));
            },
            None => {},
        }
    }
    lemma_sbc_unchanged(wo, wn);
}


/// Whether inventory attachment `a` names client slot `c`.
pub open spec fn is_iattach_client(a: InventoryAttachment, c: int) -> bool {
    match a {
        InventoryAttachment::Client(cid) => cid.0 as int == c,
        _ => false,
    }
}

/// Whether inventory attachment `a` names entity slot `e`.
pub open spec fn is_iattach_entity(a: InventoryAttachment, e: int) -> bool {
    match a {
        InventoryAttachment::Entity(eid) => eid.0 as int == e,
        _ => false,
    }
}

/// Whether inventory attachment `a` names structure slot `st`.
pub open spec fn is_iattach_structure(a: InventoryAttachment, st: int) -> bool {
    match a {
        InventoryAttachment::Structure(sid) => sid.0 as int == st,
        _ => false,
    }
}

/// Everything `inventory_attach` changes: the inventory's attachment and the
/// `child_inventories` sets of the old and new parents.
pub open spec fn inventory_attach_frame(
    wo: World,
    wn: World,
    i: int,
    oa: InventoryAttachment,
    na: InventoryAttachment,
) -> bool {
    &&& wo.inventory_live(i)
    &&& wn.inventory_live(i)
    &&& oa == wo.inventory_at(i).attachment
    &&& wn.inventory_at(i) == (Inventory { attachment: na, ..wo.inventory_at(i) })
    &&& inventories_same_except(wo, wn, i)
    &&& wn.inventories.wf()
    &&& wn.clients.wf()
    &&& wn.entities.wf()
    &&& wn.structures.wf()
    &&& wn.clients.spec_limit() == wo.clients.spec_limit()
    &&& wn.clients.spec_next_stable() == wo.clients.spec_next_stable()
    &&& wn.entities.spec_limit() == wo.entities.spec_limit()
    &&& wn.entities.spec_next_stable() == wo.entities.spec_next_stable()
    &&& wn.structures.spec_limit() == wo.structures.spec_limit()
    &&& wn.structures.spec_next_stable() == wo.structures.spec_next_stable()
    &&& forall|c: int|
        !is_iattach_client(na, c) && !is_iattach_client(oa, c) ==> {
            &&& wo.client_live(c) == wn.client_live(c)
            &&& (wo.client_live(c) ==> wn.client_at(c) == wo.client_at(c)
                && wn.clients.stable_of(c) == wo.clients.stable_of(c))
        }
    &&& forall|e: int|
        !is_iattach_entity(na, e) && !is_iattach_entity(oa, e) ==> {
            &&& wo.entity_live(e) == wn.entity_live(e)
            &&& (wo.entity_live(e) ==> wn.entity_at(e) == wo.entity_at(e)
                && wn.entities.stable_of(e) == wo.entities.stable_of(e))
        }
    &&& forall|st: int|
        !is_iattach_structure(na, st) && !is_iattach_structure(oa, st) ==> {
            &&& wo.structure_live(st) == wn.structure_live(st)
            &&& (wo.structure_live(st) ==> wn.structure_at(st) == wo.structure_at(st)
                && wn.structures.stable_of(st) == wo.structures.stable_of(st))
        }
    &&& forall|c: int|
        #[trigger] is_iattach_client(na, c) ==> {
            &&& wo.client_live(c)
            &&& wn.client_live(c)
            &&& wn.clients.stable_of(c) == wo.clients.stable_of(c)
            &&& sorted_unique(wn.client_at(c).child_inventories@)
            &&& (forall|y: u32| #[trigger]
                contains_id(wn.client_at(c).child_inventories@, y) == (contains_id(
                    wo.client_at(c).child_inventories@,
                    y,
                ) || y == i as u32))
            &&& wn.client_at(c) == (Client {
                child_inventories: wn.client_at(c).child_inventories,
                ..wo.client_at(c)
            })
        }
    &&& forall|c: int|
        #[trigger] is_iattach_client(oa, c) ==> {
            &&& wo.client_live(c)
            &&& wn.client_live(c)
            &&& wn.clients.stable_of(c) == wo.clients.stable_of(c)
            &&& sorted_unique(wn.client_at(c).child_inventories@)
            &&& (forall|y: u32| #[trigger]
                contains_id(wn.client_at(c).child_inventories@, y) == (contains_id(
                    wo.client_at(c).child_inventories@,
                    y,
                ) && y != i as u32))
            &&& wn.client_at(c) == (Client {
                child_inventories: wn.client_at(c).child_inventories,
                ..wo.client_at(c)
            })
        }
    &&& forall|e: int|
        #[trigger] is_iattach_entity(na, e) ==> {
            &&& wo.entity_live(e)
            &&& wn.entity_live(e)
            &&& wn.entities.stable_of(e) == wo.entities.stable_of(e)
            &&& sorted_unique(wn.entity_at(e).child_inventories@)
            &&& (forall|y: u32| #[trigger]
                contains_id(wn.entity_at(e).child_inventories@, y) == (contains_id(
                    wo.entity_at(e).child_inventories@,
                    y,
                ) || y == i as u32))
            &&& wn.entity_at(e) == (Entity {
                child_inventories: wn.entity_at(e).child_inventories,
                ..wo.entity_at(e)
            })
        }
    &&& forall|e: int|
        #[trigger] is_iattach_entity(oa, e) ==> {
            &&& wo.entity_live(e)
            &&& wn.entity_live(e)
            &&& wn.entities.stable_of(e) == wo.entities.stable_of(e)
            &&& sorted_unique(wn.entity_at(e).child_inventories@)
            &&& (forall|y: u32| #[trigger]
                contains_id(wn.entity_at(e).child_inventories@, y) == (contains_id(
                    wo.entity_at(e).child_inventories@,
                    y,
                ) && y != i as u32))
            &&& wn.entity_at(e) == (Entity {
                child_inventories: wn.entity_at(e).child_inventories,
                ..wo.entity_at(e)
            })
        }
    &&& forall|st: int|
        #[trigger] is_iattach_structure(na, st) ==> {
            &&& wo.structure_live(st)
            &&& wn.structure_live(st)
            &&& wn.structures.stable_of(st) == wo.structures.stable_of(st)
            &&& sorted_unique(wn.structure_at(st).child_inventories@)
            &&& (forall|y: u32| #[trigger]
                contains_id(wn.structure_at(st).child_inventories@, y) == (contains_id(
                    wo.structure_at(st).child_inventories@,
                    y,
                ) || y == i as u32))
            &&& wn.structure_at(st) == (Structure {
                child_inventories: wn.structure_at(st).child_inventories,
                ..wo.structure_at(st)
            })
        }
    &&& forall|st: int|
        #[trigger] is_iattach_structure(oa, st) ==> {
            &&& wo.structure_live(st)
            &&& wn.structure_live(st)
            &&& wn.structures.stable_of(st) == wo.structures.stable_of(st)
            &&& sorted_unique(wn.structure_at(st).child_inventories@)
            &&& (forall|y: u32| #[trigger]
                contains_id(wn.structure_at(st).child_inventories@, y) == (contains_id(
                    wo.structure_at(st).child_inventories@,
                    y,
                ) && y != i as u32))
            &&& wn.structure_at(st) == (Structure {
                child_inventories: wn.structure_at(st).child_inventories,
                ..wo.structure_at(st)
            })
        }
    &&& wn.terrain_chunks == wo.terrain_chunks
    &&& wn.structures_by_chunk == wo.structures_by_chunk
    &&& wn.data == wo.data
}

/// Re-parents inventory `iid`; on success returns the previous attachment.
pub fn inventory_attach(
    w: &mut World,
    iid: InventoryId,
    new_attach: InventoryAttachment,
) -> (r: OpResult<InventoryAttachment>)
    requires
        old(w).wf(),
    ensures
        final(w).wf(),
        match r {
            Ok(prev) => {
                &&& old(w).inventory_live(iid.0 as int)
                &&& prev == old(w).inventory_at(iid.0 as int).attachment
                &&& final(w).inventory_at(iid.0 as int).attachment == new_attach
                &&& (prev == new_attach ==> *final(w) == *old(w))
                &&& (prev != new_attach ==> inventory_attach_frame(
                    *old(w),
                    *final(w),
                    iid.0 as int,
                    prev,
                    new_attach,
                ))
            },
            Err(_) => {
                &&& *final(w) == *old(w)
                &&& (!old(w).inventory_live(iid.0 as int) || (match new_attach {
                    InventoryAttachment::World => false,
                    InventoryAttachment::Client(c) => !old(w).client_live(c.0 as int),
                    InventoryAttachment::Entity(e) => !old(w).entity_live(e.0 as int),
                    InventoryAttachment::Structure(st) => !old(w).structure_live(st.0 as int),
                }))
            },
        },
{
    let ghost wo = *old(w);
    let old_attach = match w.inventories.get(iid.0) {
        Some(inv) => inv.attachment,
        None => {
            return Err("no inventory with given id");
        },
    };
    proof {
        assert(wo.inventory_live(iid.0 as int));
        assert(wo.wf_inventory_obj(iid.0 as int, None, Set::empty(), None));
    }
    if old_attach == new_attach {
        return Ok(new_attach);
    }
    match new_attach {
        InventoryAttachment::World => {},
        InventoryAttachment::Client(cid) => {
            match w.clients.get_mut(cid.0 as u32) {
                Some(c) => {
                    proof {
                        assert(wo.client_live(cid.0 as int));
                        assert(wo.wf_client_obj(cid.0 as int));
                    }
                    idset_insert(&mut c.child_inventories, iid.0);
                },
                None => {
                    return Err("can't attach inventory to nonexistent client");
                },
            }
        },
        InventoryAttachment::Entity(eid) => {
            match w.entities.get_mut(eid.0) {
                Some(e) => {
                    proof {
                        assert(wo.entity_live(eid.0 as int));
                        assert(wo.wf_entity_obj(eid.0 as int, None));
                    }
                    idset_insert(&mut e.child_inventories, iid.0);
                },
                None => {
                    return Err("can't attach inventory to nonexistent entity");
                },
            }
        },
        InventoryAttachment::Structure(sid) => {
            match w.structures.get_mut(sid.0) {
                Some(st) => {
                    proof {
                        assert(wo.structure_live(sid.0 as int));
                        assert(wo.wf_structure_obj(sid.0 as int, None));
                    }
                    idset_insert(&mut st.child_inventories, iid.0);
                },
                None => {
                    return Err("can't attach inventory to nonexistent structure");
                },
            }
        },
    }
    match w.inventories.get_mut(iid.0) {
        Some(inv) => {
            inv.attachment = new_attach;
        },
        None => {
            proof {
                assert(false);
            }
        },
    }
    match old_attach {
        InventoryAttachment::World => {},
        InventoryAttachment::Client(ocid) => {
            proof {
                assert(wo.client_live(ocid.0 as int));
                assert(wo.wf_client_obj(ocid.0 as int));
            }
            match w.clients.get_mut(ocid.0 as u32) {
                Some(c) => {
                    idset_remove(&mut c.child_inventories, iid.0);
                },
                None => {
                    proof {
                        assert(false);
                    }
                },
            }
        },
        InventoryAttachment::Entity(oeid) => {
            proof {
                assert(wo.entity_live(oeid.0 as int));
                assert(wo.wf_entity_obj(oeid.0 as int, None));
            }
            match w.entities.get_mut(oeid.0) {
                Some(e) => {
                    idset_remove(&mut e.child_inventories, iid.0);
                },
                None => {
                    proof {
                        assert(false);
                    }
                },
            }
        },
        InventoryAttachment::Structure(osid) => {
            proof {
                assert(wo.structure_live(osid.0 as int));
                assert(wo.wf_structure_obj(osid.0 as int, None));
            }
            match w.structures.get_mut(osid.0) {
                Some(st) => {
                    idset_remove(&mut st.child_inventories, iid.0);
                },
                None => {
                    proof {
                        assert(false);
                    }
                },
            }
        },
    }
    proof {
        assert(inventory_attach_frame(wo, *w, iid.0 as int, old_attach, new_attach));
        lemma_inventory_attach_preserves(wo, *w, iid.0 as int, old_attach, new_attach);
    }
    Ok(old_attach)
}

/// The `inventory_attach` frame preserves world well-formedness.
proof fn lemma_inventory_attach_preserves(
    wo: World,
    wn: World,
    i: int,
    oa: InventoryAttachment,
    na: InventoryAttachment,
)
    requires
        wo.wf(),
        oa != na,
        inventory_attach_frame(wo, wn, i, oa, na),
        0 <= i <= u32::MAX,
    ensures
        wn.wf(),
{
    assert forall|c: int| #[trigger] wn.client_live(c) implies wn.wf_client_obj(c) by {
        assert(wo.client_live(c)) by {
            if !is_iattach_client(na, c) && !is_iattach_client(oa, c) {
            }
        }
        wo.clients.lemma_live_bounds(c);
        wo.clients.lemma_len_le_limit();
        assert(wo.wf_client_obj(c));
        let obj = wn.client_at(c);
        let oldobj = wo.client_at(c);
        assert(obj.child_entities == oldobj.child_entities && obj.pawn == oldobj.pawn);
        assert forall|j: int| 0 <= j < obj.child_entities@.len() implies wn.entity_live(
            obj.child_entities@[j] as int,
        ) && wn.entity_at(obj.child_entities@[j] as int).attachment == EntityAttachment::Client(
            ClientId(c as u16),
        ) by {
            let y = obj.child_entities@[j];
            assert(wo.entity_live(y as int) && wo.entity_at(y as int).attachment
                == EntityAttachment::Client(ClientId(c as u16)));
            assert(!is_iattach_entity(na, y as int) && !is_iattach_entity(oa, y as int)
                ==> wn.entity_at(y as int) == wo.entity_at(y as int));
            if is_iattach_entity(na, y as int) || is_iattach_entity(oa, y as int) {
                assert(wn.entity_at(y as int).attachment == wo.entity_at(y as int).attachment);
            }
        }
        match obj.pawn {
            Some(pe) => {
                assert(wo.entity_live(pe.0 as int));
                if is_iattach_entity(na, pe.0 as int) || is_iattach_entity(oa, pe.0 as int) {
                    assert(wn.entity_at(pe.0 as int).attachment == wo.entity_at(
                        pe.0 as int,
                    ).attachment);
                } else {
                    assert(wn.entity_at(pe.0 as int) == wo.entity_at(pe.0 as int));
                }
            },
            None => {},
        }
        assert forall|j: int| 0 <= j < obj.child_inventories@.len() implies wn.inventory_live(
            obj.child_inventories@[j] as int,
        ) && wn.inventory_at(obj.child_inventories@[j] as int).attachment
            == InventoryAttachment::Client(ClientId(c as u16)) by {
            let y = obj.child_inventories@[j];
            assert(contains_id(obj.child_inventories@, y));
            if is_iattach_client(na, c) && y == i as u32 {
                assert(wn.inventory_at(i).attachment == na);
            } else {
                assert(contains_id(oldobj.child_inventories@, y)) by {
                    if is_iattach_client(oa, c) || is_iattach_client(na, c) {
                    } else {
                        assert(obj == oldobj);
                    }
                }
                let j0 = choose|j0: int|
                    0 <= j0 < oldobj.child_inventories@.len() && oldobj.child_inventories@[j0]
                        == y;
                assert(wo.inventory_live(oldobj.child_inventories@[j0] as int));
                assert(wo.inventory_at(y as int).attachment == InventoryAttachment::Client(
                    ClientId(c as u16),
                ));
                assert(y as int != i) by {
                    if y as int == i {
                        assert(is_iattach_client(oa, c));
                        assert(!contains_id(obj.child_inventories@, i as u32));
                    }
                }
                assert(wn.inventory_at(y as int) == wo.inventory_at(y as int));
            }
        }
    }
    assert forall|e: int| #[trigger] wn.entity_live(e) implies wn.wf_entity_obj(e, None) by {
        assert(wo.entity_live(e)) by {
            if !is_iattach_entity(na, e) && !is_iattach_entity(oa, e) {
            }
        }
        wo.entities.lemma_live_bounds(e);
        wo.entities.lemma_len_le_limit();
        assert(wo.wf_entity_obj(e, None));
        let obj = wn.entity_at(e);
        let oldobj = wo.entity_at(e);
        assert(obj.attachment == oldobj.attachment && obj.motion == oldobj.motion);
        match obj.attachment {
            EntityAttachment::Client(cid) => {
                let ci = cid.0 as int;
                assert(wo.client_live(ci));
                assert(contains_id(wo.client_at(ci).child_entities@, e as u32));
                if is_iattach_client(na, ci) || is_iattach_client(oa, ci) {
                    assert(wn.client_at(ci).child_entities == wo.client_at(ci).child_entities);
                } else {
                    assert(wn.client_at(ci) == wo.client_at(ci));
                }
            },
            _ => {},
        }
        assert forall|j: int| 0 <= j < obj.child_inventories@.len() implies wn.inventory_live(
            obj.child_inventories@[j] as int,
        ) && wn.inventory_at(obj.child_inventories@[j] as int).attachment
            == InventoryAttachment::Entity(EntityId(e as u32)) by {
            let y = obj.child_inventories@[j];
            assert(contains_id(obj.child_inventories@, y));
            if is_iattach_entity(na, e) && y == i as u32 {
                assert(wn.inventory_at(i).attachment == na);
            } else {
                assert(contains_id(oldobj.child_inventories@, y)) by {
                    if is_iattach_entity(oa, e) || is_iattach_entity(na, e) {
                    } else {
                        assert(obj == oldobj);
                    }
                }
                let j0 = choose|j0: int|
                    0 <= j0 < oldobj.child_inventories@.len() && oldobj.child_inventories@[j0]
                        == y;
                assert(wo.inventory_live(oldobj.child_inventories@[j0] as int));
                assert(wo.inventory_at(y as int).attachment == InventoryAttachment::Entity(
                    EntityId(e as u32),
                ));
                assert(y as int != i) by {
                    if y as int == i {
                        assert(is_iattach_entity(oa, e));
                        assert(!contains_id(obj.child_inventories@, i as u32));
                    }
                }
                assert(wn.inventory_at(y as int) == wo.inventory_at(y as int));
            }
        }
    }
    assert forall|st: int| #[trigger] wn.structure_live(st) implies wn.wf_structure_obj(
        st,
        None,
    ) by {
        assert(wo.structure_live(st)) by {
            if !is_iattach_structure(na, st) && !is_iattach_structure(oa, st) {
            }
        }
        wo.structures.lemma_live_bounds(st);
        wo.structures.lemma_len_le_limit();
        assert(wo.wf_structure_obj(st, None));
        let obj = wn.structure_at(st);
        let oldobj = wo.structure_at(st);
        assert(obj.attachment == oldobj.attachment && obj.pos == oldobj.pos && obj.template
            == oldobj.template);
        assert forall|j: int| 0 <= j < obj.child_inventories@.len() implies wn.inventory_live(
            obj.child_inventories@[j] as int,
        ) && wn.inventory_at(obj.child_inventories@[j] as int).attachment
            == InventoryAttachment::Structure(StructureId(st as u32)) by {
            let y = obj.child_inventories@[j];
            assert(contains_id(obj.child_inventories@, y));
            if is_iattach_structure(na, st) && y == i as u32 {
                assert(wn.inventory_at(i).attachment == na);
            } else {
                assert(contains_id(oldobj.child_inventories@, y)) by {
                    if is_iattach_structure(oa, st) || is_iattach_structure(na, st) {
                    } else {
                        assert(obj == oldobj);
                    }
                }
                let j0 = choose|j0: int|
                    0 <= j0 < oldobj.child_inventories@.len() && oldobj.child_inventories@[j0]
                        == y;
                assert(wo.inventory_live(oldobj.child_inventories@[j0] as int));
                assert(wo.inventory_at(y as int).attachment == InventoryAttachment::Structure(
                    StructureId(st as u32),
                ));
                assert(y as int != i) by {
                    if y as int == i {
                        assert(is_iattach_structure(oa, st));
                        assert(!contains_id(obj.child_inventories@, i as u32));
                    }
                }
                assert(wn.inventory_at(y as int) == wo.inventory_at(y as int));
            }
        }
    }
    assert forall|i2: int| #[trigger] wn.inventory_live(i2) implies wn.wf_inventory_obj(
        i2,
        None,
        Set::empty(),
        None,
    ) by {
        assert(wo.inventory_live(i2));
        assert(wo.wf_inventory_obj(i2, None, Set::empty(), None));
        let obj = wn.inventory_at(i2);
        if i2 != i {
            assert(obj == wo.inventory_at(i2));
        }
        match obj.attachment {
            InventoryAttachment::Client(cid) => {
                let ci = cid.0 as int;
                if i2 == i {
                    assert(is_iattach_client(na, ci));
                    assert(contains_id(wn.client_at(ci).child_inventories@, i as u32));
                } else {
                    assert(wo.client_live(ci));
                    assert(contains_id(wo.client_at(ci).child_inventories@, i2 as u32));
                    wo.inventories.lemma_live_bounds(i2);
                    wo.inventories.lemma_len_le_limit();
                    if is_iattach_client(na, ci) {
                        assert(contains_id(wn.client_at(ci).child_inventories@, i2 as u32));
                    } else if is_iattach_client(oa, ci) {
                        assert(i2 as u32 != i as u32);
                        assert(contains_id(wn.client_at(ci).child_inventories@, i2 as u32));
                    } else {
                        assert(wn.client_at(ci) == wo.client_at(ci));
                    }
                }
            },
            InventoryAttachment::Entity(eid) => {
                let ei = eid.0 as int;
                if i2 == i {
                    assert(is_iattach_entity(na, ei));
                    assert(contains_id(wn.entity_at(ei).child_inventories@, i as u32));
                } else {
                    assert(wo.entity_live(ei));
                    assert(contains_id(wo.entity_at(ei).child_inventories@, i2 as u32));
                    wo.inventories.lemma_live_bounds(i2);
                    wo.inventories.lemma_len_le_limit();
                    if is_iattach_entity(na, ei) {
                        assert(contains_id(wn.entity_at(ei).child_inventories@, i2 as u32));
                    } else if is_iattach_entity(oa, ei) {
                        assert(i2 as u32 != i as u32);
                        assert(contains_id(wn.entity_at(ei).child_inventories@, i2 as u32));
                    } else {
                        assert(wn.entity_at(ei) == wo.entity_at(ei));
                    }
                }
            },
            InventoryAttachment::Structure(sid) => {
                let si = sid.0 as int;
                if i2 == i {
                    assert(is_iattach_structure(na, si));
                    assert(contains_id(wn.structure_at(si).child_inventories@, i as u32));
                } else {
                    assert(wo.structure_live(si));
                    assert(contains_id(wo.structure_at(si).child_inventories@, i2 as u32));
                    wo.inventories.lemma_live_bounds(i2);
                    wo.inventories.lemma_len_le_limit();
                    if is_iattach_structure(na, si) {
                        assert(contains_id(wn.structure_at(si).child_inventories@, i2 as u32));
                    } else if is_iattach_structure(oa, si) {
                        assert(i2 as u32 != i as u32);
                        assert(contains_id(wn.structure_at(si).child_inventories@, i2 as u32));
                    } else {
                        assert(wn.structure_at(si) == wo.structure_at(si));
                    }
                }
            },
            InventoryAttachment::World => {},
        }
    }
    assert forall|cpos: V2| match #[trigger] wn.chunk_at(cpos) {
        Some(tc) => wn.wf_chunk_obj(cpos, tc),
        None => true,
    } by {
        match wn.chunk_at(cpos) {
            Some(tc) => {
                assert(wo.chunk_at(cpos) == Some(tc));
                assert(wo.wf_chunk_obj(cpos, tc));
                assert forall|j: int| 0 <= j < tc.child_structures@.len() implies
                    wn.structure_live(tc.child_structures@[j] as int) && wn.structure_at(
                    tc.child_structures@[j] as int,
                ).attachment == StructureAttachment::Chunk && spec_chunk_of(
                    V2 {
                        x: wn.structure_at(tc.child_structures@[j] as int).pos.x,
                        y: wn.structure_at(tc.child_structures@[j] as int).pos.y,
                    },
                ) == cpos by {
                    let y = tc.child_structures@[j];
                    assert(wo.structure_live(y as int));
                    if is_iattach_structure(na, y as int) || is_iattach_structure(
                        oa,
                        y as int,
                    ) {
                        assert(wn.structure_at(y as int).attachment == wo.structure_at(
                            y as int,
                        ).attachment && wn.structure_at(y as int).pos == wo.structure_at(
                            y as int,
                        ).pos);
                    } else {
                        assert(wn.structure_at(y as int) == wo.structure_at(y as int));
                    }
                }
            },
            None => {},
        }
    }
    assert forall|cpos: V2, sid: u32| #[trigger] wn.sbc_has(cpos, sid) implies wn.structure_live(
        sid as int,
    ) && spec_chunk_range(wn.s_bounds(sid as int)).contains(cpos) by {
        assert(wo.sbc_has(cpos, sid));
        if is_iattach_structure(na, sid as int) || is_iattach_structure(oa, sid as int) {
            assert(wn.structure_at(sid as int).pos == wo.structure_at(sid as int).pos
                && wn.structure_at(sid as int).template == wo.structure_at(sid as int).template);
        } else {
            assert(wn.structure_at(sid as int) == wo.structure_at(sid as int));
        }
    }
    assert forall|cpos: V2, sid: u32|
        wn.structure_live(sid as int) && spec_chunk_range(wn.s_bounds(sid as int)).contains(
            cpos,
        ) implies #[trigger] wn.sbc_has(cpos, sid) by {
        assert(wo.structure_live(sid as int));
        if is_iattach_structure(na, sid as int) || is_iattach_structure(oa, sid as int) {
            assert(wn.s_bounds(sid as int) == wo.s_bounds(sid as int));
        } else {
            assert(wn.structure_at(sid as int) == wo.structure_at(sid as int));
        }
        assert(wo.sbc_has(cpos, sid));
    }
    assert forall|cpos: V2| match #[trigger] wn.structures_by_chunk.spec_get(spec_pack_v2(cpos)) {
        Some(l) => sorted_unique(l@),
        None => true,
    } by {
        assert(wn.structures_by_chunk.spec_get(spec_pack_v2(cpos))
            == wo.structures_by_chunk.spec_get(spec_pack_v2(cpos)));
    }
    assert forall|s1: int, s2: int|
        wn.structure_live(s1) && wn.structure_live(s2) && s1 != s2 implies !(
    #[trigger] wn.s_bounds(s1)).spec_overlaps(#[trigger] wn.s_bounds(s2)) by {
        assert(wo.structure_live(s1) && wo.structure_live(s2));
        assert(wn.s_bounds(s1) == wo.s_bounds(s1) && wn.s_bounds(s2) == wo.s_bounds(s2)) by {
            if is_iattach_structure(na, s1) || is_iattach_structure(oa, s1) {
                assert(wn.structure_at(s1).pos == wo.structure_at(s1).pos && wn.structure_at(
                    s1,
                ).template == wo.structure_at(s1).template);
            } else {
                assert(wn.structure_at(s1) == wo.structure_at(s1));
            }
            if is_iattach_structure(na, s2) || is_iattach_structure(oa, s2) {
                assert(wn.structure_at(s2).pos == wo.structure_at(s2).pos && wn.structure_at(
                    s2,
                ).template == wo.structure_at(s2).template);
            } else {
                assert(wn.structure_at(s2) == wo.structure_at(s2));
            }
        }
        assert(!wo.s_bounds(s1).spec_overlaps(wo.s_bounds(s2)));
    }
}


// ------------------------------------------------------------------
// terrain chunk create

/// Loads a terrain chunk at `pos`; fails if one is already there.
pub fn terrain_chunk_create(
    w: &mut World,
    hooks: &mut Vec<HookEvent>,
    pos: V2,
    blocks: Vec<BlockId>,
) -> (r: OpResult<()>)
    requires
        old(w).wf(),
        blocks@.len() == CHUNK_TOTAL,
        forall|j: int|
            0 <= j < blocks@.len() ==> (blocks@[j] as int) < old(w).data.block_shapes@.len(),
    ensures
        final(w).wf(),
        match r {
            Ok(()) => {
                &&& !old(w).chunk_loaded(pos)
                &&& final(w).chunk_loaded(pos)
                &&& final(w).chunk_at(pos) is Some
                &&& final(w).chunk_at(pos)->Some_0.blocks == blocks
                &&& final(w).chunk_at(pos)->Some_0.child_structures@.len() == 0
                &&& forall|c2: V2|
                    c2 != pos ==> #[trigger] final(w).chunk_at(c2) == old(w).chunk_at(c2)
                &&& final(w).clients == old(w).clients
                &&& final(w).entities == old(w).entities
                &&& final(w).structures == old(w).structures
                &&& final(w).inventories == old(w).inventories
                &&& final(w).structures_by_chunk == old(w).structures_by_chunk
                &&& final(w).data == old(w).data
                &&& final(hooks)@ == old(hooks)@.push(HookEvent::TerrainChunkCreate(pos))
            },
            Err(_) => {
                &&& *final(w) == *old(w)
                &&& final(hooks)@ == old(hooks)@
                &&& old(w).chunk_loaded(pos)
            },
        },
{
    let ghost wo = *old(w);
    if w.terrain_chunks.contains_key(pack_v2(pos)) {
        return Err("chunk already exists with same position");
    }
    let tc = TerrainChunk { blocks, child_structures: Vec::new() };
    w.terrain_chunks.insert(pack_v2(pos), tc);
    proof {
        assert forall|c2: V2| c2 != pos implies #[trigger] w.chunk_at(c2) == wo.chunk_at(c2) by {
            if spec_pack_v2(c2) == spec_pack_v2(pos) {
                lemma_pack_v2_injective(c2, pos);
            }
        }
        lemma_chunk_create_preserves(wo, *w, pos);
    }
    hooks.push(HookEvent::TerrainChunkCreate(pos));
    Ok(())
}

/// Adding a fresh chunk with no child structures preserves well-formedness.
proof fn lemma_chunk_create_preserves(wo: World, wn: World, pos: V2)
    requires
        wo.wf(),
        !wo.chunk_loaded(pos),
        wn.chunk_loaded(pos),
        wn.terrain_chunks.wf(),
        match wn.chunk_at(pos) {
            Some(tc) => tc.blocks@.len() == CHUNK_TOTAL && tc.child_structures@.len() == 0
                && forall|j: int|
                0 <= j < tc.blocks@.len() ==> (tc.blocks@[j] as int)
                    < wo.data.block_shapes@.len(),
            None => false,
        },
        forall|c2: V2| c2 != pos ==> #[trigger] wn.chunk_at(c2) == wo.chunk_at(c2),
        wn.clients == wo.clients,
        wn.entities == wo.entities,
        wn.structures == wo.structures,
        wn.inventories == wo.inventories,
        wn.structures_by_chunk == wo.structures_by_chunk,
        wn.data == wo.data,
    ensures
        wn.wf(),
{
    assert forall|c: int| #[trigger] wn.client_live(c) implies wn.wf_client_obj(c) by {
        assert(wo.client_live(c));
        assert(wo.wf_client_obj(c));
    }
    assert forall|e: int| #[trigger] wn.entity_live(e) implies wn.wf_entity_obj(e, None) by {
        assert(wo.entity_live(e));
        assert(wo.wf_entity_obj(e, None));
    }
    assert forall|st: int| #[trigger] wn.structure_live(st) implies wn.wf_structure_obj(
        st,
        None,
    ) by {
        assert(wo.structure_live(st));
        assert(wo.wf_structure_obj(st, None));
        match wn.structure_at(st).attachment {
            StructureAttachment::Chunk => {
                let cpos = spec_chunk_of(
                    V2 { x: wn.structure_at(st).pos.x, y: wn.structure_at(st).pos.y },
                );
                assert(cpos != pos);
                assert(wn.chunk_at(cpos) == wo.chunk_at(cpos));
            },
            _ => {},
        }
    }
    assert forall|i: int| #[trigger] wn.inventory_live(i) implies wn.wf_inventory_obj(
        i,
        None,
        Set::empty(),
        None,
    ) by {
        assert(wo.inventory_live(i));
        assert(wo.wf_inventory_obj(i, None, Set::empty(), None));
    }
    assert forall|cpos: V2| match #[trigger] wn.chunk_at(cpos) {
        Some(tc) => wn.wf_chunk_obj(cpos, tc),
        None => true,
    } by {
        match wn.chunk_at(cpos) {
            Some(tc) => {
                if cpos != pos {
                    assert(wo.chunk_at(cpos) == Some(tc));
                    assert(wo.wf_chunk_obj(cpos, tc));
                }
            },
            None => {},
        }
    }
    lemma_sbc_unchanged(wo, wn);
}

// ------------------------------------------------------------------
// structure placement

/// Shape of the terrain cell at world position `p` (which must lie in the
/// loaded chunk at `chunk_of(p)`).
pub open spec fn spec_shape_at(w: World, p: V3) -> crate::world::Shape {
    let cpos = spec_chunk_of(V2 { x: p.x, y: p.y });
    let tc = w.chunk_at(cpos)->Some_0;
    let lx = p.x - cpos.x * CHUNK_SIZE;
    let ly = p.y - cpos.y * CHUNK_SIZE;
    let idx = p.z * CHUNK_SIZE * CHUNK_SIZE + ly * CHUNK_SIZE + lx;
    w.data.block_shapes@[tc.blocks@[idx] as int]
}

/// Terrain admits a structure cell at `p`: empty everywhere, or floor on
/// the structure's base level.
pub open spec fn spec_cell_ok(w: World, bounds: Region, p: V3) -> bool {
    spec_shape_at(w, p) == crate::world::Shape::Empty || (spec_shape_at(w, p)
        == crate::world::Shape::Floor && p.z == bounds.min.z)
}

/// A structure box may be placed: every chunk it touches is loaded, it
/// overlaps no live structure, and every cell it covers inside the chunk
/// volume (`0 <= z < CHUNK_SIZE`) is empty (or floor at its base); cells
/// outside the chunk volume are unconstrained.
pub open spec fn spec_placement_ok(w: World, bounds: Region) -> bool {
    &&& forall|cpos: V2| spec_chunk_range(bounds).contains(cpos) ==> #[trigger] w.chunk_loaded(
        cpos,
    )
    &&& forall|sid: int| w.structure_live(sid) ==> !(#[trigger] w.s_bounds(sid)).spec_overlaps(
        bounds,
    )
    &&& forall|p: V3|
        #[trigger] bounds.contains(p) && 0 <= p.z < CHUNK_SIZE ==> spec_cell_ok(w, bounds, p)
}

/// Checks whether `bounds` can hold a new structure, walking the chunks the
/// box touches and consulting the inverted index.
pub fn structure_check_placement(w: &World, bounds: Region) -> (r: bool)
    requires
        w.wf(),
        -COORD_LIMIT <= bounds.min.x,
        -COORD_LIMIT <= bounds.min.y,
        bounds.min.x < bounds.max.x <= COORD_LIMIT + TEMPLATE_SIZE_LIMIT,
        bounds.min.y < bounds.max.y <= COORD_LIMIT + TEMPLATE_SIZE_LIMIT,
        bounds.min.z < bounds.max.z <= COORD_LIMIT + TEMPLATE_SIZE_LIMIT,
    ensures
        r == spec_placement_ok(*w, bounds),
{
    let cr = chunk_range(bounds);
    let mut cy = cr.min.y;
    while cy < cr.max.y
        invariant
            w.wf(),
            cr == spec_chunk_range(bounds),
            -COORD_LIMIT <= bounds.min.x,
            -COORD_LIMIT <= bounds.min.y,
            bounds.min.x < bounds.max.x <= COORD_LIMIT + TEMPLATE_SIZE_LIMIT,
            bounds.min.y < bounds.max.y <= COORD_LIMIT + TEMPLATE_SIZE_LIMIT,
            bounds.min.z < bounds.max.z <= COORD_LIMIT + TEMPLATE_SIZE_LIMIT,
            cr.min.y <= cy <= cr.max.y,
            forall|cpos: V2|
                cr.contains(cpos) && cpos.y < cy ==> #[trigger] chunk_col_ok(*w, bounds, cpos),
        decreases cr.max.y - cy,
    {
        let mut cx = cr.min.x;
        while cx < cr.max.x
            invariant
                w.wf(),
                cr == spec_chunk_range(bounds),
                -COORD_LIMIT <= bounds.min.x,
                -COORD_LIMIT <= bounds.min.y,
                bounds.min.x < bounds.max.x <= COORD_LIMIT + TEMPLATE_SIZE_LIMIT,
                bounds.min.y < bounds.max.y <= COORD_LIMIT + TEMPLATE_SIZE_LIMIT,
                bounds.min.z < bounds.max.z <= COORD_LIMIT + TEMPLATE_SIZE_LIMIT,
                cr.min.y <= cy < cr.max.y,
                cr.min.x <= cx <= cr.max.x,
                forall|cpos: V2|
                    cr.contains(cpos) && cpos.y < cy ==> #[trigger] chunk_col_ok(
                        *w,
                        bounds,
                        cpos,
                    ),
                forall|cpos: V2|
                    cr.contains(cpos) && cpos.y == cy && cpos.x < cx ==> #[trigger] chunk_col_ok(
                        *w,
                        bounds,
                        cpos,
                    ),
            decreases cr.max.x - cx,
        {
            let cpos = V2 { x: cx, y: cy };
            if !check_one_chunk(w, bounds, cpos) {
                return false;
            }
            cx += 1;
        }
        cy += 1;
    }
    proof {
        assert forall|cpos: V2| spec_chunk_range(bounds).contains(cpos) implies #[trigger]
            w.chunk_loaded(cpos) by {
            assert(chunk_col_ok(*w, bounds, cpos));
        }
        assert forall|sid: int|
            w.structure_live(sid) implies !(#[trigger] w.s_bounds(sid)).spec_overlaps(
            bounds,
        ) by {
            if w.s_bounds(sid).spec_overlaps(bounds) {
                let p = w.s_bounds(sid).lemma_overlap_point(bounds);
                let cpos = spec_chunk_of(V2 { x: p.x, y: p.y });
                w.structures.lemma_live_bounds(sid);
                w.structures.lemma_len_le_limit();
                assert(w.wf_structure_obj(sid, None));
                lemma_chunk_range_covers(bounds, p);
                lemma_chunk_range_covers(w.s_bounds(sid), p);
                assert(w.sbc_has(cpos, sid as u32));
                assert(chunk_col_ok(*w, bounds, cpos));
            }
        }
        assert forall|p: V3|
            #[trigger] bounds.contains(p) && 0 <= p.z < CHUNK_SIZE implies spec_cell_ok(
            *w,
            bounds,
            p,
        ) by {
            let cpos = spec_chunk_of(V2 { x: p.x, y: p.y });
            lemma_chunk_range_covers(bounds, p);
            assert(chunk_col_ok(*w, bounds, cpos));
        }
    }
    true
}

/// All placement conditions hold for the cells and index entries of one
/// chunk.
pub open spec fn chunk_col_ok(w: World, bounds: Region, cpos: V2) -> bool {
    &&& w.chunk_loaded(cpos)
    &&& forall|sid: u32| #[trigger] w.sbc_has(cpos, sid) ==> !w.s_bounds(sid as int).spec_overlaps(
        bounds,
    )
    &&& forall|p: V3|
        #[trigger] bounds.contains(p) && spec_chunk_of(V2 { x: p.x, y: p.y }) == cpos && 0 <= p.z
            < CHUNK_SIZE ==> spec_cell_ok(w, bounds, p)
}

/// Placement conditions for a single chunk of the box's chunk range.
fn check_one_chunk(w: &World, bounds: Region, cpos: V2) -> (r: bool)
    requires
        w.wf(),
        -COORD_LIMIT <= bounds.min.x,
        -COORD_LIMIT <= bounds.min.y,
        bounds.min.x < bounds.max.x <= COORD_LIMIT + TEMPLATE_SIZE_LIMIT,
        bounds.min.y < bounds.max.y <= COORD_LIMIT + TEMPLATE_SIZE_LIMIT,
        bounds.min.z < bounds.max.z <= COORD_LIMIT + TEMPLATE_SIZE_LIMIT,
        spec_chunk_range(bounds).contains(cpos),
    ensures
        r == chunk_col_ok(*w, bounds, cpos),
{
    // structures listed under this chunk must not overlap the box
    match w.chunk_structures(cpos) {
        Some(l) => {
            let n = l.len();
            let mut k: usize = 0;
            while k < n
                invariant
                    w.wf(),
                    w.structures_by_chunk.spec_get(spec_pack_v2(cpos)) == Some(*l),
                    n == l@.len(),
                    0 <= k <= n,
                    forall|j: int|
                        0 <= j < k ==> !w.s_bounds(l@[j] as int).spec_overlaps(bounds),
                decreases n - k,
            {
                let sid = l[k];
                proof {
                    assert(contains_id(l@, sid));
                    assert(w.sbc_has(cpos, sid));
                    assert(w.structure_live(sid as int));
                    assert(w.wf_structure_obj(sid as int, None));
                }
                let st = match w.structures.get(sid) {
                    Some(st) => st,
                    None => {
                        proof {
                            assert(false);
                        }
                        return false;
                    },
                };
                let tpl = match w.data.get_template(st.template) {
                    Some(t) => *t,
                    None => {
                        proof {
                            assert(false);
                        }
                        return false;
                    },
                };
                let other = Region {
                    min: st.pos,
                    max: V3 {
                        x: st.pos.x + tpl.size.x,
                        y: st.pos.y + tpl.size.y,
                        z: st.pos.z + tpl.size.z,
                    },
                };
                proof {
                    assert(other == w.s_bounds(sid as int));
                }
                if other.overlaps(bounds) {
                    proof {
                        assert(!chunk_col_ok(*w, bounds, cpos));
                    }
                    return false;
                }
                k += 1;
            }
            proof {
                assert forall|sid: u32| #[trigger] w.sbc_has(cpos, sid) implies !w.s_bounds(
                    sid as int,
                ).spec_overlaps(bounds) by {
                    let j = choose|j: int| 0 <= j < l@.len() && l@[j] == sid;
                }
            }
        },
        None => {},
    }
    // the chunk itself must be loaded, and its covered cells free
    let tc = match w.get_terrain_chunk(cpos) {
        Some(tc) => tc,
        None => {
            return false;
        },
    };
    proof {
        assert(w.wf_chunk_obj(cpos, *tc));
    }
    // intersection of the box with this chunk's column
    let lo_x = if bounds.min.x > cpos.x * CHUNK_SIZE {
        bounds.min.x
    } else {
        cpos.x * CHUNK_SIZE
    };
    let hi_x = if bounds.max.x < (cpos.x + 1) * CHUNK_SIZE {
        bounds.max.x
    } else {
        (cpos.x + 1) * CHUNK_SIZE
    };
    let lo_y = if bounds.min.y > cpos.y * CHUNK_SIZE {
        bounds.min.y
    } else {
        cpos.y * CHUNK_SIZE
    };
    let hi_y = if bounds.max.y < (cpos.y + 1) * CHUNK_SIZE {
        bounds.max.y
    } else {
        (cpos.y + 1) * CHUNK_SIZE
    };
    proof {
        crate::geom::lemma_div_in_i32_range(bounds.min.x as int, CHUNK_SIZE as int);
        crate::geom::lemma_div_in_i32_range(bounds.min.y as int, CHUNK_SIZE as int);
        crate::geom::lemma_div_in_i32_range(
            (bounds.max.x + CHUNK_SIZE - 1) as int,
            CHUNK_SIZE as int,
        );
        crate::geom::lemma_div_in_i32_range(
            (bounds.max.y + CHUNK_SIZE - 1) as int,
            CHUNK_SIZE as int,
        );
        lemma_chunk_axis_intersect(bounds.min.x as int, bounds.max.x as int, cpos.x as int);
        lemma_chunk_axis_intersect(bounds.min.y as int, bounds.max.y as int, cpos.y as int);
    }
    // clip the box to the chunk's vertical volume; cells outside it carry
    // no terrain and are unconstrained
    let lo_z = if bounds.min.z > 0 {
        bounds.min.z
    } else {
        0
    };
    let hi_z = if bounds.max.z < CHUNK_SIZE {
        bounds.max.z
    } else {
        CHUNK_SIZE
    };
    if lo_z >= hi_z {
        proof {
            assert forall|p: V3|
                #[trigger] bounds.contains(p) && spec_chunk_of(V2 { x: p.x, y: p.y }) == cpos
                    && 0 <= p.z < CHUNK_SIZE implies spec_cell_ok(*w, bounds, p) by {
                assert(p.z >= lo_z && p.z < hi_z);
            }
        }
        return true;
    }
    let mut z = lo_z;
    while z < hi_z
        invariant
            w.wf(),
            w.chunk_at(cpos) == Some(*tc),
            w.wf_chunk_obj(cpos, *tc),
            lo_x == spec_max(bounds.min.x as int, cpos.x * CHUNK_SIZE),
            hi_x == spec_min(bounds.max.x as int, (cpos.x + 1) * CHUNK_SIZE),
            lo_y == spec_max(bounds.min.y as int, cpos.y * CHUNK_SIZE),
            hi_y == spec_min(bounds.max.y as int, (cpos.y + 1) * CHUNK_SIZE),
            lo_x < hi_x,
            lo_y < hi_y,
            lo_z == spec_max(bounds.min.z as int, 0),
            hi_z == spec_min(bounds.max.z as int, CHUNK_SIZE as int),
            lo_z < hi_z,
            -COORD_LIMIT <= bounds.min.x,
            -COORD_LIMIT <= bounds.min.y,
            bounds.min.x < bounds.max.x <= COORD_LIMIT + TEMPLATE_SIZE_LIMIT,
            bounds.min.y < bounds.max.y <= COORD_LIMIT + TEMPLATE_SIZE_LIMIT,
            bounds.min.z < bounds.max.z <= COORD_LIMIT + TEMPLATE_SIZE_LIMIT,
            lo_z <= z <= hi_z,
            forall|p: V3|
                #[trigger] bounds.contains(p) && spec_chunk_of(V2 { x: p.x, y: p.y }) == cpos
                    && 0 <= p.z && p.z < z ==> spec_cell_ok(*w, bounds, p),
        decreases hi_z - z,
    {
        let mut y = lo_y;
        while y < hi_y
            invariant
                w.wf(),
                w.chunk_at(cpos) == Some(*tc),
                w.wf_chunk_obj(cpos, *tc),
                lo_x == spec_max(bounds.min.x as int, cpos.x * CHUNK_SIZE),
                hi_x == spec_min(bounds.max.x as int, (cpos.x + 1) * CHUNK_SIZE),
                lo_y == spec_max(bounds.min.y as int, cpos.y * CHUNK_SIZE),
                hi_y == spec_min(bounds.max.y as int, (cpos.y + 1) * CHUNK_SIZE),
                lo_x < hi_x,
                lo_y < hi_y,
                lo_z == spec_max(bounds.min.z as int, 0),
                hi_z == spec_min(bounds.max.z as int, CHUNK_SIZE as int),
                lo_z < hi_z,
                -COORD_LIMIT <= bounds.min.x,
                -COORD_LIMIT <= bounds.min.y,
                bounds.min.x < bounds.max.x <= COORD_LIMIT + TEMPLATE_SIZE_LIMIT,
                bounds.min.y < bounds.max.y <= COORD_LIMIT + TEMPLATE_SIZE_LIMIT,
                bounds.min.z < bounds.max.z <= COORD_LIMIT + TEMPLATE_SIZE_LIMIT,
                lo_z <= z < hi_z,
                lo_y <= y <= hi_y,
                forall|p: V3|
                    #[trigger] bounds.contains(p) && spec_chunk_of(V2 { x: p.x, y: p.y }) == cpos
                        && 0 <= p.z && p.z < z ==> spec_cell_ok(*w, bounds, p),
                forall|p: V3|
                    #[trigger] bounds.contains(p) && spec_chunk_of(V2 { x: p.x, y: p.y }) == cpos
                        && p.z == z && p.y < y ==> spec_cell_ok(*w, bounds, p),
            decreases hi_y - y,
        {
            let mut x = lo_x;
            while x < hi_x
                invariant
                    w.wf(),
                    w.chunk_at(cpos) == Some(*tc),
                    w.wf_chunk_obj(cpos, *tc),
                    lo_x == spec_max(bounds.min.x as int, cpos.x * CHUNK_SIZE),
                    hi_x == spec_min(bounds.max.x as int, (cpos.x + 1) * CHUNK_SIZE),
                    lo_y == spec_max(bounds.min.y as int, cpos.y * CHUNK_SIZE),
                    hi_y == spec_min(bounds.max.y as int, (cpos.y + 1) * CHUNK_SIZE),
                    lo_x < hi_x,
                    lo_y < hi_y,
                    lo_z == spec_max(bounds.min.z as int, 0),
                    hi_z == spec_min(bounds.max.z as int, CHUNK_SIZE as int),
                    lo_z < hi_z,
                    -COORD_LIMIT <= bounds.min.x,
                    -COORD_LIMIT <= bounds.min.y,
                    bounds.min.x < bounds.max.x <= COORD_LIMIT + TEMPLATE_SIZE_LIMIT,
                    bounds.min.y < bounds.max.y <= COORD_LIMIT + TEMPLATE_SIZE_LIMIT,
                    bounds.min.z < bounds.max.z <= COORD_LIMIT + TEMPLATE_SIZE_LIMIT,
                    lo_z <= z < hi_z,
                    lo_y <= y < hi_y,
                    lo_x <= x <= hi_x,
                    forall|p: V3|
                        #[trigger] bounds.contains(p) && spec_chunk_of(V2 { x: p.x, y: p.y })
                            == cpos && 0 <= p.z && p.z < z ==> spec_cell_ok(*w, bounds, p),
                    forall|p: V3|
                        #[trigger] bounds.contains(p) && spec_chunk_of(V2 { x: p.x, y: p.y })
                            == cpos && p.z == z && p.y < y ==> spec_cell_ok(*w, bounds, p),
                    forall|p: V3|
                        #[trigger] bounds.contains(p) && spec_chunk_of(V2 { x: p.x, y: p.y })
                            == cpos && p.z == z && p.y == y && p.x < x ==> spec_cell_ok(
                            *w,
                            bounds,
                            p,
                        ),
                decreases hi_x - x,
            {
                let p = V3 { x, y, z };
                proof {
                    lemma_cell_in_chunk(p, cpos);
                }
                let lx = x - cpos.x * CHUNK_SIZE;
                let ly = y - cpos.y * CHUNK_SIZE;
                let idx = (z * CHUNK_SIZE * CHUNK_SIZE + ly * CHUNK_SIZE + lx) as usize;
                let block = tc.blocks[idx];
                let shape = w.data.block_shapes[block as usize];
                let ok = match shape {
                    crate::world::Shape::Empty => true,
                    crate::world::Shape::Floor => z == bounds.min.z,
                    _ => false,
                };
                if !ok {
                    proof {
                        assert(bounds.contains(p));
                        assert(!spec_cell_ok(*w, bounds, p));
                        assert(!chunk_col_ok(*w, bounds, cpos));
                    }
                    return false;
                }
                x += 1;
            }
            y += 1;
        }
        z += 1;
    }
    proof {
        assert forall|p: V3|
            #[trigger] bounds.contains(p) && spec_chunk_of(V2 { x: p.x, y: p.y }) == cpos && 0
                <= p.z < CHUNK_SIZE implies spec_cell_ok(*w, bounds, p) by {
            lemma_chunk_of_bounds(p, cpos);
            assert(p.z >= lo_z && p.z < hi_z);
        }
    }
    true
}

pub open spec fn spec_max(a: int, b: int) -> int {
    if a >= b {
        a
    } else {
        b
    }
}

pub open spec fn spec_min(a: int, b: int) -> int {
    if a <= b {
        a
    } else {
        b
    }
}

/// A chunk of the box's chunk range meets the box in a nonempty column.
proof fn lemma_chunk_axis_intersect(lo: int, hi: int, v: int)
    requires
        lo < hi,
        lo / (CHUNK_SIZE as int) <= v,
        v < (hi + CHUNK_SIZE - 1) / (CHUNK_SIZE as int),
    ensures
        spec_max(lo, v * CHUNK_SIZE) < spec_min(hi, (v + 1) * CHUNK_SIZE),
{
    let c = CHUNK_SIZE as int;
    vstd::arithmetic::div_mod::lemma_fundamental_div_mod(lo, c);
    vstd::arithmetic::div_mod::lemma_mod_bound(lo, c);
    let ql = lo / c;
    assert(ql * c == c * ql) by (nonlinear_arith);
    assert(v * c >= ql * c) by {
        vstd::arithmetic::mul::lemma_mul_inequality(ql, v, c);
    }
    assert((v + 1) * c == v * c + c) by (nonlinear_arith);
    vstd::arithmetic::div_mod::lemma_fundamental_div_mod(hi + c - 1, c);
    vstd::arithmetic::div_mod::lemma_mod_bound(hi + c - 1, c);
    let qh = (hi + c - 1) / c;
    assert(qh * c == c * qh) by (nonlinear_arith);
    assert(v * c <= (qh - 1) * c) by {
        vstd::arithmetic::mul::lemma_mul_inequality(v, qh - 1, c);
    }
    assert((qh - 1) * c == qh * c - c) by (nonlinear_arith);
}

/// A cell whose xy chunk is `cpos` has local offsets in `0 .. CHUNK_SIZE`.
proof fn lemma_chunk_of_bounds(p: V3, cpos: V2)
    requires
        spec_chunk_of(V2 { x: p.x, y: p.y }) == cpos,
    ensures
        cpos.x * CHUNK_SIZE <= p.x < (cpos.x + 1) * CHUNK_SIZE,
        cpos.y * CHUNK_SIZE <= p.y < (cpos.y + 1) * CHUNK_SIZE,
{
    let c = CHUNK_SIZE as int;
    vstd::arithmetic::div_mod::lemma_fundamental_div_mod(p.x as int, c);
    vstd::arithmetic::div_mod::lemma_mod_bound(p.x as int, c);
    vstd::arithmetic::div_mod::lemma_fundamental_div_mod(p.y as int, c);
    vstd::arithmetic::div_mod::lemma_mod_bound(p.y as int, c);
    crate::geom::lemma_div_in_i32_range(p.x as int, c);
    crate::geom::lemma_div_in_i32_range(p.y as int, c);
}

/// Conversely, a cell with local offsets in range lies in chunk `cpos`.
proof fn lemma_cell_in_chunk(p: V3, cpos: V2)
    requires
        cpos.x * CHUNK_SIZE <= p.x < (cpos.x + 1) * CHUNK_SIZE,
        cpos.y * CHUNK_SIZE <= p.y < (cpos.y + 1) * CHUNK_SIZE,
    ensures
        spec_chunk_of(V2 { x: p.x, y: p.y }) == cpos,
{
    let c = CHUNK_SIZE as int;
    vstd::arithmetic::div_mod::lemma_fundamental_div_mod_converse(
        p.x as int,
        c,
        cpos.x as int,
        p.x - cpos.x * c,
    );
    vstd::arithmetic::div_mod::lemma_fundamental_div_mod_converse(
        p.y as int,
        c,
        cpos.y as int,
        p.y - cpos.y * c,
    );
}


// ------------------------------------------------------------------
// structure create

/// The chunk-invalidate events for a chunk rectangle, row-major.
pub open spec fn spec_invalidate_events(r: Region2) -> Seq<HookEvent> {
    let width = r.max.x - r.min.x;
    let height = r.max.y - r.min.y;
    if width <= 0 || height <= 0 {
        Seq::empty()
    } else {
        Seq::new(
            (width * height) as nat,
            |k: int|
                HookEvent::ChunkInvalidate(
                    V2 { x: (r.min.x + k % width) as i32, y: (r.min.y + k / width) as i32 },
                ),
        )
    }
}

/// Appends one `ChunkInvalidate` event per chunk of the box's chunk range,
/// in row-major order.
fn invalidate_region(hooks: &mut Vec<HookEvent>, bounds: Region)
    requires
        -COORD_LIMIT <= bounds.min.x,
        -COORD_LIMIT <= bounds.min.y,
        bounds.min.x <= bounds.max.x <= COORD_LIMIT + TEMPLATE_SIZE_LIMIT,
        bounds.min.y <= bounds.max.y <= COORD_LIMIT + TEMPLATE_SIZE_LIMIT,
    ensures
        final(hooks)@ == old(hooks)@ + spec_invalidate_events(spec_chunk_range(bounds)),
{
    let cr = chunk_range(bounds);
    let ghost width = cr.max.x - cr.min.x;
    let ghost height = cr.max.y - cr.min.y;
    if cr.max.x <= cr.min.x || cr.max.y <= cr.min.y {
        proof {
            assert(final(hooks)@ =~= old(hooks)@ + spec_invalidate_events(cr));
        }
        return ;
    }
    let mut cy = cr.min.y;
    while cy < cr.max.y
        invariant
            cr == spec_chunk_range(bounds),
            width == cr.max.x - cr.min.x,
            height == cr.max.y - cr.min.y,
            width > 0,
            height > 0,
            cr.min.y <= cy <= cr.max.y,
            hooks@ == old(hooks)@ + spec_invalidate_events(cr).take((cy - cr.min.y) * width),
        decreases cr.max.y - cy,
    {
        let mut cx = cr.min.x;
        while cx < cr.max.x
            invariant
                cr == spec_chunk_range(bounds),
                width == cr.max.x - cr.min.x,
                height == cr.max.y - cr.min.y,
                width > 0,
                height > 0,
                cr.min.y <= cy < cr.max.y,
                cr.min.x <= cx <= cr.max.x,
                hooks@ == old(hooks)@ + spec_invalidate_events(cr).take(
                    (cy - cr.min.y) * width + (cx - cr.min.x),
                ),
            decreases cr.max.x - cx,
        {
            let ghost k = (cy - cr.min.y) * width + (cx - cr.min.x);
            proof {
                lemma_row_major(cr.min.x as int, cr.min.y as int, width, height, cx as int,
                    cy as int);
                assert(spec_invalidate_events(cr)[k] == HookEvent::ChunkInvalidate(
                    V2 { x: cx, y: cy },
                ));
            }
            hooks.push(HookEvent::ChunkInvalidate(V2 { x: cx, y: cy }));
            proof {
                assert(hooks@ =~= old(hooks)@ + spec_invalidate_events(cr).take(k + 1));
            }
            cx += 1;
        }
        proof {
            assert((cy - cr.min.y) * width + width == (cy + 1 - cr.min.y) * width)
                by (nonlinear_arith);
        }
        cy += 1;
    }
    proof {
        assert(height * width == width * height) by (nonlinear_arith);
        assert(spec_invalidate_events(cr).len() == width * height);
        assert((cr.max.y - cr.min.y) * width == height * width);
        assert(spec_invalidate_events(cr).take(height * width) =~= spec_invalidate_events(cr));
    }
}

/// Row-major indexing facts: the index of `(cx, cy)` decodes back to it.
proof fn lemma_row_major(minx: int, miny: int, width: int, height: int, cx: int, cy: int)
    requires
        width > 0,
        height > 0,
        minx <= cx < minx + width,
        miny <= cy < miny + height,
    ensures
        0 <= (cy - miny) * width + (cx - minx) < width * height,
        ((cy - miny) * width + (cx - minx)) % width == cx - minx,
        ((cy - miny) * width + (cx - minx)) / width == cy - miny,
{
    let dy = cy - miny;
    let dx = cx - minx;
    assert(0 <= dy * width + dx && dy * width + dx < width * height) by (nonlinear_arith)
        requires
            0 <= dy < height,
            0 <= dx < width,
    ;
    assert(dy * width + dx == width * dy + dx) by (nonlinear_arith);
    vstd::arithmetic::div_mod::lemma_fundamental_div_mod_converse(
        dy * width + dx,
        width,
        dy,
        dx,
    );
}

/// Adds `sid` to the index lists of every chunk the box touches.
fn structure_add_to_lookup(w: &mut World, sid: u32, bounds: Region)
    requires
        old(w).terrain_chunks.wf(),
        old(w).structures_by_chunk.wf(),
        old(w).wf_sbc_sorted(),
        -COORD_LIMIT <= bounds.min.x,
        -COORD_LIMIT <= bounds.min.y,
        bounds.min.x <= bounds.max.x <= COORD_LIMIT + TEMPLATE_SIZE_LIMIT,
        bounds.min.y <= bounds.max.y <= COORD_LIMIT + TEMPLATE_SIZE_LIMIT,
    ensures
        final(w).structures_by_chunk.wf(),
        final(w).wf_sbc_sorted(),
        forall|cpos: V2, sid2: u32| #[trigger]
            final(w).sbc_has(cpos, sid2) == (old(w).sbc_has(cpos, sid2) || (sid2 == sid
                && spec_chunk_range(bounds).contains(cpos))),
        final(w).clients == old(w).clients,
        final(w).entities == old(w).entities,
        final(w).structures == old(w).structures,
        final(w).inventories == old(w).inventories,
        final(w).terrain_chunks == old(w).terrain_chunks,
        final(w).data == old(w).data,
{
    let cr = chunk_range(bounds);
    proof {
        vstd::arithmetic::div_mod::lemma_div_is_ordered(
            bounds.min.x as int,
            bounds.max.x + CHUNK_SIZE - 1,
            CHUNK_SIZE as int,
        );
        vstd::arithmetic::div_mod::lemma_div_is_ordered(
            bounds.min.y as int,
            bounds.max.y + CHUNK_SIZE - 1,
            CHUNK_SIZE as int,
        );
        crate::geom::lemma_div_in_i32_range(bounds.min.x as int, CHUNK_SIZE as int);
        crate::geom::lemma_div_in_i32_range(bounds.min.y as int, CHUNK_SIZE as int);
        crate::geom::lemma_div_in_i32_range(
            (bounds.max.x + CHUNK_SIZE - 1) as int,
            CHUNK_SIZE as int,
        );
        crate::geom::lemma_div_in_i32_range(
            (bounds.max.y + CHUNK_SIZE - 1) as int,
            CHUNK_SIZE as int,
        );
    }
    let mut cy = cr.min.y;
    while cy < cr.max.y
        invariant
            cr == spec_chunk_range(bounds),
            cr.min.x <= cr.max.x,
            cr.min.y <= cr.max.y,
            w.structures_by_chunk.wf(),
            w.wf_sbc_sorted(),
            cr.min.y <= cy <= cr.max.y,
            forall|cpos: V2, sid2: u32| #[trigger]
                w.sbc_has(cpos, sid2) == (old(w).sbc_has(cpos, sid2) || (sid2 == sid
                    && cr.contains(cpos) && cpos.y < cy)),
            w.clients == old(w).clients,
            w.entities == old(w).entities,
            w.structures == old(w).structures,
            w.inventories == old(w).inventories,
            w.terrain_chunks == old(w).terrain_chunks,
            w.data == old(w).data,
        decreases cr.max.y - cy,
    {
        let mut cx = cr.min.x;
        while cx < cr.max.x
            invariant
                cr == spec_chunk_range(bounds),
                cr.min.x <= cr.max.x,
                cr.min.y <= cr.max.y,
                w.structures_by_chunk.wf(),
                w.wf_sbc_sorted(),
                cr.min.y <= cy < cr.max.y,
                cr.min.x <= cx <= cr.max.x,
                forall|cpos: V2, sid2: u32| #[trigger]
                    w.sbc_has(cpos, sid2) == (old(w).sbc_has(cpos, sid2) || (sid2 == sid
                        && cr.contains(cpos) && (cpos.y < cy || (cpos.y == cy && cpos.x
                        < cx)))),
                w.clients == old(w).clients,
                w.entities == old(w).entities,
                w.structures == old(w).structures,
                w.inventories == old(w).inventories,
                w.terrain_chunks == old(w).terrain_chunks,
                w.data == old(w).data,
            decreases cr.max.x - cx,
        {
            let cpos = V2 { x: cx, y: cy };
            let ghost prev = *w;
            let taken = w.structures_by_chunk.take(pack_v2(cpos));
            let ghost prev_list: Seq<u32> = match taken {
                Some(ref l0) => l0@,
                None => Seq::empty(),
            };
            proof {
                assert(prev.wf_sbc_sorted());
                assert(match prev.structures_by_chunk.spec_get(spec_pack_v2(cpos)) {
                    Some(l0) => sorted_unique(l0@),
                    None => true,
                });
                assert(forall|y: u32| #[trigger]
                    contains_id(prev_list, y) == prev.sbc_has(cpos, y));
            }
            let mut l: Vec<u32> = match taken {
                Some(l0) => l0,
                None => Vec::new(),
            };
            proof {
                assert(l@ == prev_list);
                assert(sorted_unique(l@));
            }
            idset_insert(&mut l, sid);
            let ghost lsnap = l@;
            w.structures_by_chunk.insert(pack_v2(cpos), l);
            proof {
                assert(w.structures_by_chunk.spec_get(spec_pack_v2(cpos)) is Some);
                assert(w.structures_by_chunk.spec_get(spec_pack_v2(cpos))->Some_0@ == lsnap);
                assert forall|c2: V2, sid2: u32| #[trigger]
                    w.sbc_has(c2, sid2) == (old(w).sbc_has(c2, sid2) || (sid2 == sid
                        && cr.contains(c2) && (c2.y < cy || (c2.y == cy && c2.x < cx
                        + 1)))) by {
                    if spec_pack_v2(c2) == spec_pack_v2(cpos) {
                        lemma_pack_v2_injective(c2, cpos);
                        assert(w.sbc_has(c2, sid2) == contains_id(lsnap, sid2));
                        assert(contains_id(lsnap, sid2) == (contains_id(prev_list, sid2)
                            || sid2 == sid));
                        assert(contains_id(prev_list, sid2) == prev.sbc_has(cpos, sid2));
                        assert(prev.sbc_has(cpos, sid2) == (old(w).sbc_has(cpos, sid2) || (
                        sid2 == sid && cr.contains(cpos) && (cpos.y < cy || (cpos.y == cy
                            && cpos.x < cx)))));
                        assert(cr.contains(cpos));
                    } else {
                        assert(w.structures_by_chunk.spec_get(spec_pack_v2(c2))
                            == prev.structures_by_chunk.spec_get(spec_pack_v2(c2)));
                        assert(w.sbc_has(c2, sid2) == prev.sbc_has(c2, sid2));
                        assert(c2 != cpos);
                    }
                }
                assert forall|c2: V2| match #[trigger] w.structures_by_chunk.spec_get(
                    spec_pack_v2(c2),
                ) {
                    Some(l2) => sorted_unique(l2@),
                    None => true,
                } by {
                    if spec_pack_v2(c2) == spec_pack_v2(cpos) {
                        assert(sorted_unique(lsnap));
                    } else {
                        assert(w.structures_by_chunk.spec_get(spec_pack_v2(c2))
                            == prev.structures_by_chunk.spec_get(spec_pack_v2(c2)));
                        assert(match prev.structures_by_chunk.spec_get(spec_pack_v2(c2)) {
                            Some(l2) => sorted_unique(l2@),
                            None => true,
                        });
                    }
                }
            }
            cx += 1;
        }
        cy += 1;
    }
}

/// Places a new structure of template `tid` at `pos`, attached to the world.
/// Fails if the template is unknown or placement is blocked.
pub fn structure_create(
    w: &mut World,
    hooks: &mut Vec<HookEvent>,
    pos: V3,
    tid: TemplateId,
) -> (r: OpResult<StructureId>)
    requires
        old(w).wf(),
        -COORD_LIMIT <= pos.x <= COORD_LIMIT,
        -COORD_LIMIT <= pos.y <= COORD_LIMIT,
        -COORD_LIMIT <= pos.z <= COORD_LIMIT,
    ensures
        final(w).wf(),
        match r {
            Ok(sid) => {
                &&& (tid as int) < old(w).data.templates@.len()
                &&& spec_placement_ok(
                    *old(w),
                    spec_template_bounds(pos, old(w).data.templates@[tid as int].size),
                )
                &&& !old(w).structure_live(sid.0 as int)
                &&& final(w).structure_live(sid.0 as int)
                &&& final(w).structure_at(sid.0 as int).pos == pos
                &&& final(w).structure_at(sid.0 as int).template == tid
                &&& final(w).structure_at(sid.0 as int).attachment == StructureAttachment::World
                &&& final(w).structure_at(sid.0 as int).child_inventories@.len() == 0
                &&& structures_same_except(*old(w), *final(w), sid.0 as int)
                &&& forall|cpos: V2, sid2: u32| #[trigger]
                    final(w).sbc_has(cpos, sid2) == (old(w).sbc_has(cpos, sid2) || (sid2
                        == sid.0 && spec_chunk_range(final(w).s_bounds(sid.0 as int)).contains(
                        cpos,
                    )))
                &&& final(w).structures.stable_of(sid.0 as int) == crate::types::NO_STABLE_ID
                &&& (forall|s: StableId| #[trigger] final(w).structures.spec_transient_of(s)
                    == old(w).structures.spec_transient_of(s))
                &&& final(w).clients == old(w).clients
                &&& final(w).entities == old(w).entities
                &&& final(w).inventories == old(w).inventories
                &&& final(w).terrain_chunks == old(w).terrain_chunks
                &&& final(w).data == old(w).data
                &&& final(hooks)@ == old(hooks)@ + spec_invalidate_events(
                    spec_chunk_range(final(w).s_bounds(sid.0 as int)),
                ).push(HookEvent::StructureCreate(sid))
            },
            Err(e) => {
                &&& *final(w) == *old(w)
                &&& final(hooks)@ == old(hooks)@
                &&& ((tid as int) >= old(w).data.templates@.len() || !spec_placement_ok(
                    *old(w),
                    spec_template_bounds(pos, old(w).data.templates@[tid as int].size),
                ) || old(w).structures.spec_len() == old(w).structures.spec_limit())
                &&& e@ == (if (tid as int) >= old(w).data.templates@.len() {
                    "no structure template with given id"@
                } else if !spec_placement_ok(
                    *old(w),
                    spec_template_bounds(pos, old(w).data.templates@[tid as int].size),
                ) {
                    "structure placement blocked by terrain or other structure"@
                } else {
                    "structure id space exhausted"@
                })
            },
        },
{
    let ghost wo = *old(w);
    let tpl = match w.data.get_template(tid) {
        Some(t) => *t,
        None => {
            return Err("no structure template with given id");
        },
    };
    let bounds = Region {
        min: pos,
        max: V3 { x: pos.x + tpl.size.x, y: pos.y + tpl.size.y, z: pos.z + tpl.size.z },
    };
    proof {
        assert(bounds == spec_template_bounds(pos, wo.data.templates@[tid as int].size));
    }
    if !structure_check_placement(w, bounds) {
        return Err("structure placement blocked by terrain or other structure");
    }
    let st = Structure {
        pos,
        template: tid,
        attachment: StructureAttachment::World,
        child_inventories: Vec::new(),
    };
    let sid = match w.structures.insert(st) {
        Ok(i) => i,
        Err(()) => {
            return Err("structure id space exhausted");
        },
    };
    let ghost wmid = *w;
    proof {
        assert(wmid.s_bounds(sid as int) == bounds);
        lemma_placement_still_ok(wo, wmid, bounds, sid as int);
    }
    structure_add_to_lookup(w, sid, bounds);
    proof {
        lemma_structure_create_preserves(wo, wmid, *w, sid as int, bounds, tid);
    }
    invalidate_region(hooks, bounds);
    hooks.push(HookEvent::StructureCreate(StructureId(sid)));
    proof {
        assert(hooks@ =~= old(hooks)@ + spec_invalidate_events(spec_chunk_range(bounds)).push(
            HookEvent::StructureCreate(StructureId(sid)),
        ));
    }
    Ok(StructureId(sid))
}

pub open spec fn spec_template_bounds(pos: V3, size: V3) -> Region {
    Region {
        min: pos,
        max: V3 {
            x: (pos.x + size.x) as i32,
            y: (pos.y + size.y) as i32,
            z: (pos.z + size.z) as i32,
        },
    }
}

/// Inserting the structure row does not disturb the placement conditions,
/// which talk about the old structures only.
proof fn lemma_placement_still_ok(wo: World, wmid: World, bounds: Region, x: int)
    requires
        wo.wf(),
        structures_same_except(wo, wmid, x),
        !wo.structure_live(x),
        wmid.terrain_chunks == wo.terrain_chunks,
        wmid.structures_by_chunk == wo.structures_by_chunk,
        wmid.data == wo.data,
        spec_placement_ok(wo, bounds),
    ensures
        forall|sid: int|
            wo.structure_live(sid) ==> !(#[trigger] wmid.s_bounds(sid)).spec_overlaps(bounds),
        forall|sid: int| sid != x && wmid.structure_live(sid) ==> wo.structure_live(sid),
{
    assert forall|sid: int| wo.structure_live(sid) implies !(#[trigger] wmid.s_bounds(
        sid,
    )).spec_overlaps(bounds) by {
        assert(sid != x);
        assert(wmid.structure_at(sid) == wo.structure_at(sid));
        assert(!wo.s_bounds(sid).spec_overlaps(bounds));
    }
}

/// After inserting a world-attached structure in a spot that passed the
/// placement check and registering it in the index, the world is
/// well-formed again.
proof fn lemma_structure_create_preserves(
    wo: World,
    wmid: World,
    wn: World,
    x: int,
    bounds: Region,
    tid: TemplateId,
)
    requires
        wo.wf(),
        spec_placement_ok(wo, bounds),
        !wo.structure_live(x),
        0 <= x <= u32::MAX,
        // table insertion step
        structures_same_except(wo, wmid, x),
        wmid.structure_live(x),
        wmid.structure_at(x).pos == bounds.min,
        wmid.structure_at(x).template == tid,
        (tid as int) < wo.data.templates@.len(),
        wmid.s_bounds(x) == bounds,
        wmid.structure_at(x).attachment == StructureAttachment::World,
        wmid.structure_at(x).child_inventories@.len() == 0,
        -COORD_LIMIT <= wmid.structure_at(x).pos.x <= COORD_LIMIT,
        -COORD_LIMIT <= wmid.structure_at(x).pos.y <= COORD_LIMIT,
        -COORD_LIMIT <= wmid.structure_at(x).pos.z <= COORD_LIMIT,
        wmid.structures.wf(),
        wmid.structures.spec_limit() == 0xFFFF_FFF0,
        wmid.clients == wo.clients,
        wmid.entities == wo.entities,
        wmid.inventories == wo.inventories,
        wmid.terrain_chunks == wo.terrain_chunks,
        wmid.structures_by_chunk == wo.structures_by_chunk,
        wmid.data == wo.data,
        // index registration step
        wn.structures_by_chunk.wf(),
        wn.wf_sbc_sorted(),
        forall|cpos: V2, sid2: u32| #[trigger]
            wn.sbc_has(cpos, sid2) == (wmid.sbc_has(cpos, sid2) || (sid2 == x as u32
                && spec_chunk_range(bounds).contains(cpos))),
        wn.clients == wmid.clients,
        wn.entities == wmid.entities,
        wn.structures == wmid.structures,
        wn.inventories == wmid.inventories,
        wn.terrain_chunks == wmid.terrain_chunks,
        wn.data == wmid.data,
    ensures
        wn.wf(),
{
    assert(wn.structure_live(x) && wn.structure_at(x) == wmid.structure_at(x));
    assert(wn.s_bounds(x) == bounds);
    assert forall|c: int| #[trigger] wn.client_live(c) implies wn.wf_client_obj(c) by {
        assert(wo.client_live(c));
        assert(wo.wf_client_obj(c));
    }
    assert forall|e: int| #[trigger] wn.entity_live(e) implies wn.wf_entity_obj(e, None) by {
        assert(wo.entity_live(e));
        assert(wo.wf_entity_obj(e, None));
    }
    assert forall|i: int| #[trigger] wn.inventory_live(i) implies wn.wf_inventory_obj(
        i,
        None,
        Set::empty(),
        None,
    ) by {
        assert(wo.inventory_live(i));
        assert(wo.wf_inventory_obj(i, None, Set::empty(), None));
        match wn.inventory_at(i).attachment {
            InventoryAttachment::Structure(sid) => {
                assert(wo.structure_live(sid.0 as int));
                assert(sid.0 as int != x);
                assert(wn.structure_at(sid.0 as int) == wo.structure_at(sid.0 as int));
            },
            _ => {},
        }
    }
    assert forall|st: int| #[trigger] wn.structure_live(st) implies wn.wf_structure_obj(
        st,
        None,
    ) by {
        if st != x {
            assert(wo.structure_live(st));
            assert(wo.wf_structure_obj(st, None));
            assert(wn.structure_at(st) == wo.structure_at(st));
        }
    }
    assert forall|cpos: V2| match #[trigger] wn.chunk_at(cpos) {
        Some(tc) => wn.wf_chunk_obj(cpos, tc),
        None => true,
    } by {
        match wn.chunk_at(cpos) {
            Some(tc) => {
                assert(wo.chunk_at(cpos) == Some(tc));
                assert(wo.wf_chunk_obj(cpos, tc));
                assert forall|j: int| 0 <= j < tc.child_structures@.len() implies
                    wn.structure_live(tc.child_structures@[j] as int) && wn.structure_at(
                    tc.child_structures@[j] as int,
                ).attachment == StructureAttachment::Chunk && spec_chunk_of(
                    V2 {
                        x: wn.structure_at(tc.child_structures@[j] as int).pos.x,
                        y: wn.structure_at(tc.child_structures@[j] as int).pos.y,
                    },
                ) == cpos by {
                    let y = tc.child_structures@[j];
                    assert(wo.structure_live(y as int));
                    assert(y as int != x);
                    assert(wn.structure_at(y as int) == wo.structure_at(y as int));
                }
            },
            None => {},
        }
    }
    assert forall|cpos: V2, sid: u32| #[trigger] wn.sbc_has(cpos, sid) implies wn.structure_live(
        sid as int,
    ) && spec_chunk_range(wn.s_bounds(sid as int)).contains(cpos) by {
        if sid == x as u32 && spec_chunk_range(bounds).contains(cpos) {
        } else {
            assert(wo.sbc_has(cpos, sid));
            assert(wo.structure_live(sid as int));
            assert(sid as int != x);
            assert(wn.structure_at(sid as int) == wo.structure_at(sid as int));
        }
    }
    assert forall|cpos: V2, sid: u32|
        wn.structure_live(sid as int) && spec_chunk_range(wn.s_bounds(sid as int)).contains(
            cpos,
        ) implies #[trigger] wn.sbc_has(cpos, sid) by {
        if sid as int == x {
        } else {
            assert(wo.structure_live(sid as int)) by {
                wn.structures.lemma_live_bounds(sid as int);
            }
            assert(wn.structure_at(sid as int) == wo.structure_at(sid as int));
            assert(wo.sbc_has(cpos, sid));
        }
    }
    assert forall|s1: int, s2: int|
        wn.structure_live(s1) && wn.structure_live(s2) && s1 != s2 implies !(
    #[trigger] wn.s_bounds(s1)).spec_overlaps(#[trigger] wn.s_bounds(s2)) by {
        if s1 == x {
            assert(wo.structure_live(s2));
            assert(wn.s_bounds(s2) == wo.s_bounds(s2));
            assert(!wo.s_bounds(s2).spec_overlaps(bounds));
            assert(!wn.s_bounds(s1).spec_overlaps(wn.s_bounds(s2)));
        } else if s2 == x {
            assert(wo.structure_live(s1));
            assert(wn.s_bounds(s1) == wo.s_bounds(s1));
            assert(!wo.s_bounds(s1).spec_overlaps(bounds));
        } else {
            assert(wo.structure_live(s1) && wo.structure_live(s2));
            assert(wn.s_bounds(s1) == wo.s_bounds(s1) && wn.s_bounds(s2) == wo.s_bounds(s2));
            assert(!wo.s_bounds(s1).spec_overlaps(wo.s_bounds(s2)));
        }
    }
}


// ------------------------------------------------------------------
// destroy ops

/// Removes inventory `iid` and detaches it from its parent; tolerant of a
/// parent that is itself mid-destruction (named by the waiver parameters).
fn inventory_destroy_x(
    w: &mut World,
    hooks: &mut Vec<HookEvent>,
    iid: InventoryId,
    Ghost(dc): Ghost<Option<u16>>,
    Ghost(de): Ghost<Set<u32>>,
    Ghost(ds): Ghost<Option<u32>>,
    Ghost(dtc): Ghost<Option<V2>>,
) -> (r: OpResult<()>)
    requires
        old(w).wf_x(dc, de, ds, dtc),
    ensures
        final(w).wf_x(dc, de, ds, dtc),
        match r {
            Ok(()) => {
                &&& old(w).inventory_live(iid.0 as int)
                &&& !final(w).inventory_live(iid.0 as int)
                &&& inventories_same_except(*old(w), *final(w), iid.0 as int)
                &&& (old(w).inventories.stable_of(iid.0 as int) != crate::types::NO_STABLE_ID
                    ==> final(w).inventories.spec_transient_of(
                    old(w).inventories.stable_of(iid.0 as int),
                ) == None::<u32>)
                &&& (forall|s: StableId|
                    s != old(w).inventories.stable_of(iid.0 as int) ==> #[trigger] final(w).inventories.spec_transient_of(s) == old(w).inventories.spec_transient_of(
                        s,
                    ))
                &&& final(w).terrain_chunks == old(w).terrain_chunks
                &&& final(w).structures_by_chunk == old(w).structures_by_chunk
                &&& final(w).data == old(w).data
                &&& final(w).clients.spec_next_stable() == old(w).clients.spec_next_stable()
                &&& final(w).clients.spec_limit() == old(w).clients.spec_limit()
                &&& final(w).entities.spec_next_stable() == old(w).entities.spec_next_stable()
                &&& final(w).entities.spec_limit() == old(w).entities.spec_limit()
                &&& final(w).structures.spec_next_stable() == old(w).structures.spec_next_stable()
                &&& final(w).structures.spec_limit() == old(w).structures.spec_limit()
                &&& ((match old(w).inventory_at(iid.0 as int).attachment {
                    InventoryAttachment::Client(c2) => !old(w).client_live(c2.0 as int),
                    _ => true,
                }) ==> final(w).clients == old(w).clients)
                &&& ((match old(w).inventory_at(iid.0 as int).attachment {
                    InventoryAttachment::Entity(e2) => !old(w).entity_live(e2.0 as int),
                    _ => true,
                }) ==> final(w).entities == old(w).entities)
                &&& ((match old(w).inventory_at(iid.0 as int).attachment {
                    InventoryAttachment::Structure(s2) => !old(w).structure_live(s2.0 as int),
                    _ => true,
                }) ==> final(w).structures == old(w).structures)
                &&& (forall|c: int|
                    !is_iattach_client(old(w).inventory_at(iid.0 as int).attachment, c) || !old(w).client_live(c) ==> {
                        &&& old(w).client_live(c) == final(w).client_live(c)
                        &&& (old(w).client_live(c) ==> final(w).client_at(c) == old(w).client_at(
                            c,
                        ) && final(w).clients.stable_of(c) == old(w).clients.stable_of(c))
                    })
                &&& (forall|e: int|
                    !is_iattach_entity(old(w).inventory_at(iid.0 as int).attachment, e) || !old(w).entity_live(e) ==> {
                        &&& old(w).entity_live(e) == final(w).entity_live(e)
                        &&& (old(w).entity_live(e) ==> final(w).entity_at(e) == old(w).entity_at(
                            e,
                        ) && final(w).entities.stable_of(e) == old(w).entities.stable_of(e))
                    })
                &&& (forall|st: int|
                    !is_iattach_structure(old(w).inventory_at(iid.0 as int).attachment, st)
                        || !old(w).structure_live(st) ==> {
                        &&& old(w).structure_live(st) == final(w).structure_live(st)
                        &&& (old(w).structure_live(st) ==> final(w).structure_at(st) == old(w).structure_at(st) && final(w).structures.stable_of(st) == old(w).structures.stable_of(st))
                    })
                &&& (forall|c: int|
                    #[trigger] is_iattach_client(
                        old(w).inventory_at(iid.0 as int).attachment,
                        c,
                    ) && old(w).client_live(c) ==> {
                        &&& final(w).client_live(c)
                        &&& final(w).client_at(c) == (Client {
                            child_inventories: final(w).client_at(c).child_inventories,
                            ..old(w).client_at(c)
                        })
                        &&& sorted_unique(final(w).client_at(c).child_inventories@)
                        &&& (forall|y: u32| #[trigger]
                            contains_id(final(w).client_at(c).child_inventories@, y) == (
                            contains_id(old(w).client_at(c).child_inventories@, y) && y != iid.0))
                        &&& final(w).clients.stable_of(c) == old(w).clients.stable_of(c)
                    })
                &&& (forall|e: int|
                    #[trigger] is_iattach_entity(
                        old(w).inventory_at(iid.0 as int).attachment,
                        e,
                    ) && old(w).entity_live(e) ==> {
                        &&& final(w).entity_live(e)
                        &&& final(w).entity_at(e) == (Entity {
                            child_inventories: final(w).entity_at(e).child_inventories,
                            ..old(w).entity_at(e)
                        })
                        &&& sorted_unique(final(w).entity_at(e).child_inventories@)
                        &&& (forall|y: u32| #[trigger]
                            contains_id(final(w).entity_at(e).child_inventories@, y) == (
                            contains_id(old(w).entity_at(e).child_inventories@, y) && y != iid.0))
                        &&& final(w).entities.stable_of(e) == old(w).entities.stable_of(e)
                    })
                &&& (forall|st: int|
                    #[trigger] is_iattach_structure(
                        old(w).inventory_at(iid.0 as int).attachment,
                        st,
                    ) && old(w).structure_live(st) ==> {
                        &&& final(w).structure_live(st)
                        &&& final(w).structure_at(st) == (Structure {
                            child_inventories: final(w).structure_at(st).child_inventories,
                            ..old(w).structure_at(st)
                        })
                        &&& sorted_unique(final(w).structure_at(st).child_inventories@)
                        &&& (forall|y: u32| #[trigger]
                            contains_id(final(w).structure_at(st).child_inventories@, y) == (
                            contains_id(old(w).structure_at(st).child_inventories@, y) && y
                                != iid.0))
                        &&& final(w).structures.stable_of(st) == old(w).structures.stable_of(st)
                    })
                &&& final(hooks)@ == old(hooks)@.push(HookEvent::InventoryDestroy(iid))
            },
            Err(_) => {
                &&& *final(w) == *old(w)
                &&& final(hooks)@ == old(hooks)@
                &&& !old(w).inventory_live(iid.0 as int)
            },
        },
{
    let ghost wo = *old(w);
    let inv = match w.inventories.remove(iid.0) {
        Some(inv) => inv,
        None => {
            return Err("no inventory with given id");
        },
    };
    proof {
        assert(wo.inventory_live(iid.0 as int));
        assert(wo.wf_inventory_obj(iid.0 as int, dc, de, ds));
    }
    match inv.attachment {
        InventoryAttachment::World => {},
        InventoryAttachment::Client(cid) => {
            match w.clients.get_mut(cid.0 as u32) {
                Some(c) => {
                    proof {
                        assert(wo.client_live(cid.0 as int));
                        assert(wo.wf_client_obj(cid.0 as int));
                    }
                    idset_remove(&mut c.child_inventories, iid.0);
                },
                None => {
                    proof {
                        assert(Some(cid.0) == dc);
                    }
                },
            }
        },
        InventoryAttachment::Entity(eid) => {
            match w.entities.get_mut(eid.0) {
                Some(e) => {
                    proof {
                        assert(wo.entity_live(eid.0 as int));
                        assert(wo.wf_entity_obj(eid.0 as int, dc));
                    }
                    idset_remove(&mut e.child_inventories, iid.0);
                },
                None => {
                    proof {
                        assert(de.contains(eid.0));
                    }
                },
            }
        },
        InventoryAttachment::Structure(sid) => {
            match w.structures.get_mut(sid.0) {
                Some(st) => {
                    proof {
                        assert(wo.structure_live(sid.0 as int));
                        assert(wo.wf_structure_obj(sid.0 as int, dtc));
                    }
                    idset_remove(&mut st.child_inventories, iid.0);
                },
                None => {
                    proof {
                        assert(Some(sid.0) == ds);
                    }
                },
            }
        },
    }
    proof {
        lemma_inventory_destroy_preserves(wo, *w, iid.0 as int, inv.attachment, dc, de, ds, dtc);
    }
    hooks.push(HookEvent::InventoryDestroy(iid));
    Ok(())
}

/// Removing an inventory and its one parent link preserves the (waived)
/// invariants.
proof fn lemma_inventory_destroy_preserves(
    wo: World,
    wn: World,
    i: int,
    oa: InventoryAttachment,
    dc: Option<u16>,
    de: Set<u32>,
    ds: Option<u32>,
    dtc: Option<V2>,
)
    requires
        wo.wf_x(dc, de, ds, dtc),
        wo.inventory_live(i),
        0 <= i <= u32::MAX,
        oa == wo.inventory_at(i).attachment,
        !wn.inventory_live(i),
        inventories_same_except(wo, wn, i),
        wn.inventories.wf(),
        wn.clients.wf(),
        wn.entities.wf(),
        wn.structures.wf(),
        wn.clients.spec_limit() == wo.clients.spec_limit(),
        wn.entities.spec_limit() == wo.entities.spec_limit(),
        wn.structures.spec_limit() == wo.structures.spec_limit(),
        forall|c: int|
            !is_iattach_client(oa, c) ==> {
                &&& wo.client_live(c) == wn.client_live(c)
                &&& (wo.client_live(c) ==> wn.client_at(c) == wo.client_at(c)
                    && wn.clients.stable_of(c) == wo.clients.stable_of(c))
            },
        forall|e: int|
            !is_iattach_entity(oa, e) ==> {
                &&& wo.entity_live(e) == wn.entity_live(e)
                &&& (wo.entity_live(e) ==> wn.entity_at(e) == wo.entity_at(e)
                    && wn.entities.stable_of(e) == wo.entities.stable_of(e))
            },
        forall|st: int|
            !is_iattach_structure(oa, st) ==> {
                &&& wo.structure_live(st) == wn.structure_live(st)
                &&& (wo.structure_live(st) ==> wn.structure_at(st) == wo.structure_at(st)
                    && wn.structures.stable_of(st) == wo.structures.stable_of(st))
            },
        forall|c: int|
            #[trigger] is_iattach_client(oa, c) ==> {
                &&& wo.client_live(c) == wn.client_live(c)
                &&& (wo.client_live(c) ==> {
                    &&& wn.client_at(c) == (Client {
                        child_inventories: wn.client_at(c).child_inventories,
                        ..wo.client_at(c)
                    })
                    &&& sorted_unique(wn.client_at(c).child_inventories@)
                    &&& (forall|y: u32| #[trigger]
                        contains_id(wn.client_at(c).child_inventories@, y) == (contains_id(
                            wo.client_at(c).child_inventories@,
                            y,
                        ) && y != i as u32))
                    &&& wn.clients.stable_of(c) == wo.clients.stable_of(c)
                })
            },
        forall|e: int|
            #[trigger] is_iattach_entity(oa, e) ==> {
                &&& wo.entity_live(e) == wn.entity_live(e)
                &&& (wo.entity_live(e) ==> {
                    &&& wn.entity_at(e) == (Entity {
                        child_inventories: wn.entity_at(e).child_inventories,
                        ..wo.entity_at(e)
                    })
                    &&& sorted_unique(wn.entity_at(e).child_inventories@)
                    &&& (forall|y: u32| #[trigger]
                        contains_id(wn.entity_at(e).child_inventories@, y) == (contains_id(
                            wo.entity_at(e).child_inventories@,
                            y,
                        ) && y != i as u32))
                    &&& wn.entities.stable_of(e) == wo.entities.stable_of(e)
                })
            },
        forall|st: int|
            #[trigger] is_iattach_structure(oa, st) ==> {
                &&& wo.structure_live(st) == wn.structure_live(st)
                &&& (wo.structure_live(st) ==> {
                    &&& wn.structure_at(st) == (Structure {
                        child_inventories: wn.structure_at(st).child_inventories,
                        ..wo.structure_at(st)
                    })
                    &&& sorted_unique(wn.structure_at(st).child_inventories@)
                    &&& (forall|y: u32| #[trigger]
                        contains_id(wn.structure_at(st).child_inventories@, y) == (contains_id(
                            wo.structure_at(st).child_inventories@,
                            y,
                        ) && y != i as u32))
                    &&& wn.structures.stable_of(st) == wo.structures.stable_of(st)
                })
            },
        wn.terrain_chunks == wo.terrain_chunks,
        wn.structures_by_chunk == wo.structures_by_chunk,
        wn.data == wo.data,
    ensures
        wn.wf_x(dc, de, ds, dtc),
{
    assert forall|c: int| #[trigger] wn.client_live(c) implies wn.wf_client_obj(c) by {
        assert(wo.client_live(c));
        wo.clients.lemma_live_bounds(c);
        wo.clients.lemma_len_le_limit();
        assert(wo.wf_client_obj(c));
        let obj = wn.client_at(c);
        let oldobj = wo.client_at(c);
        assert(obj.child_entities == oldobj.child_entities && obj.pawn == oldobj.pawn);
        assert forall|j: int| 0 <= j < obj.child_entities@.len() implies wn.entity_live(
            obj.child_entities@[j] as int,
        ) && wn.entity_at(obj.child_entities@[j] as int).attachment == EntityAttachment::Client(
            ClientId(c as u16),
        ) by {
            let y = obj.child_entities@[j];
            assert(wo.entity_live(y as int) && wo.entity_at(y as int).attachment
                == EntityAttachment::Client(ClientId(c as u16)));
            if is_iattach_entity(oa, y as int) {
                assert(wn.entity_at(y as int).attachment == wo.entity_at(y as int).attachment);
            } else {
                assert(wn.entity_at(y as int) == wo.entity_at(y as int));
            }
        }
        match obj.pawn {
            Some(pe) => {
                assert(wo.entity_live(pe.0 as int));
                if is_iattach_entity(oa, pe.0 as int) {
                    assert(wn.entity_at(pe.0 as int).attachment == wo.entity_at(
                        pe.0 as int,
                    ).attachment);
                } else {
                    assert(wn.entity_at(pe.0 as int) == wo.entity_at(pe.0 as int));
                }
            },
            None => {},
        }
        assert forall|j: int| 0 <= j < obj.child_inventories@.len() implies wn.inventory_live(
            obj.child_inventories@[j] as int,
        ) && wn.inventory_at(obj.child_inventories@[j] as int).attachment
            == InventoryAttachment::Client(ClientId(c as u16)) by {
            let y = obj.child_inventories@[j];
            assert(contains_id(obj.child_inventories@, y));
            assert(contains_id(oldobj.child_inventories@, y)) by {
                if is_iattach_client(oa, c) {
                } else {
                    assert(obj == oldobj);
                }
            }
            let j0 = choose|j0: int|
                0 <= j0 < oldobj.child_inventories@.len() && oldobj.child_inventories@[j0] == y;
            assert(wo.inventory_live(oldobj.child_inventories@[j0] as int));
            assert(wo.inventory_at(y as int).attachment == InventoryAttachment::Client(
                ClientId(c as u16),
            ));
            assert(y as int != i) by {
                if y as int == i {
                    assert(is_iattach_client(oa, c));
                    assert(!contains_id(obj.child_inventories@, i as u32));
                }
            }
            assert(wn.inventory_at(y as int) == wo.inventory_at(y as int));
        }
    }
    assert forall|e: int| #[trigger] wn.entity_live(e) implies wn.wf_entity_obj(e, dc) by {
        assert(wo.entity_live(e));
        wo.entities.lemma_live_bounds(e);
        wo.entities.lemma_len_le_limit();
        assert(wo.wf_entity_obj(e, dc));
        let obj = wn.entity_at(e);
        let oldobj = wo.entity_at(e);
        assert(obj.attachment == oldobj.attachment && obj.motion == oldobj.motion);
        match obj.attachment {
            EntityAttachment::Client(cid) => {
                let ci = cid.0 as int;
                if Some(cid.0) != dc {
                    assert(wo.client_live(ci));
                    assert(contains_id(wo.client_at(ci).child_entities@, e as u32));
                    if is_iattach_client(oa, ci) {
                        assert(wn.client_at(ci).child_entities == wo.client_at(
                            ci,
                        ).child_entities);
                    } else {
                        assert(wn.client_at(ci) == wo.client_at(ci));
                    }
                }
            },
            _ => {},
        }
        assert forall|j: int| 0 <= j < obj.child_inventories@.len() implies wn.inventory_live(
            obj.child_inventories@[j] as int,
        ) && wn.inventory_at(obj.child_inventories@[j] as int).attachment
            == InventoryAttachment::Entity(EntityId(e as u32)) by {
            let y = obj.child_inventories@[j];
            assert(contains_id(obj.child_inventories@, y));
            assert(contains_id(oldobj.child_inventories@, y)) by {
                if is_iattach_entity(oa, e) {
                } else {
                    assert(obj == oldobj);
                }
            }
            let j0 = choose|j0: int|
                0 <= j0 < oldobj.child_inventories@.len() && oldobj.child_inventories@[j0] == y;
            assert(wo.inventory_live(oldobj.child_inventories@[j0] as int));
            assert(wo.inventory_at(y as int).attachment == InventoryAttachment::Entity(
                EntityId(e as u32),
            ));
            assert(y as int != i) by {
                if y as int == i {
                    assert(is_iattach_entity(oa, e));
                    assert(!contains_id(obj.child_inventories@, i as u32));
                }
            }
            assert(wn.inventory_at(y as int) == wo.inventory_at(y as int));
        }
    }
    assert forall|st: int| #[trigger] wn.structure_live(st) implies wn.wf_structure_obj(
        st,
        dtc,
    ) by {
        assert(wo.structure_live(st));
        wo.structures.lemma_live_bounds(st);
        wo.structures.lemma_len_le_limit();
        assert(wo.wf_structure_obj(st, dtc));
        let obj = wn.structure_at(st);
        let oldobj = wo.structure_at(st);
        assert(obj.attachment == oldobj.attachment && obj.pos == oldobj.pos && obj.template
            == oldobj.template);
        assert forall|j: int| 0 <= j < obj.child_inventories@.len() implies wn.inventory_live(
            obj.child_inventories@[j] as int,
        ) && wn.inventory_at(obj.child_inventories@[j] as int).attachment
            == InventoryAttachment::Structure(StructureId(st as u32)) by {
            let y = obj.child_inventories@[j];
            assert(contains_id(obj.child_inventories@, y));
            assert(contains_id(oldobj.child_inventories@, y)) by {
                if is_iattach_structure(oa, st) {
                } else {
                    assert(obj == oldobj);
                }
            }
            let j0 = choose|j0: int|
                0 <= j0 < oldobj.child_inventories@.len() && oldobj.child_inventories@[j0] == y;
            assert(wo.inventory_live(oldobj.child_inventories@[j0] as int));
            assert(wo.inventory_at(y as int).attachment == InventoryAttachment::Structure(
                StructureId(st as u32),
            ));
            assert(y as int != i) by {
                if y as int == i {
                    assert(is_iattach_structure(oa, st));
                    assert(!contains_id(obj.child_inventories@, i as u32));
                }
            }
            assert(wn.inventory_at(y as int) == wo.inventory_at(y as int));
        }
    }
    assert forall|i2: int| #[trigger] wn.inventory_live(i2) implies wn.wf_inventory_obj(
        i2,
        dc,
        de,
        ds,
    ) by {
        assert(wo.inventory_live(i2));
        assert(i2 != i);
        assert(wo.wf_inventory_obj(i2, dc, de, ds));
        let obj = wn.inventory_at(i2);
        assert(obj == wo.inventory_at(i2));
        match obj.attachment {
            InventoryAttachment::Client(cid) => {
                let ci = cid.0 as int;
                if Some(cid.0) != dc {
                    assert(wo.client_live(ci));
                    assert(contains_id(wo.client_at(ci).child_inventories@, i2 as u32));
                    wo.inventories.lemma_live_bounds(i2);
                    wo.inventories.lemma_len_le_limit();
                    if is_iattach_client(oa, ci) {
                        assert(i2 as u32 != i as u32);
                        assert(contains_id(wn.client_at(ci).child_inventories@, i2 as u32));
                    } else {
                        assert(wn.client_at(ci) == wo.client_at(ci));
                    }
                }
            },
            InventoryAttachment::Entity(eid) => {
                let ei = eid.0 as int;
                if !de.contains(eid.0) {
                    assert(wo.entity_live(ei));
                    assert(contains_id(wo.entity_at(ei).child_inventories@, i2 as u32));
                    wo.inventories.lemma_live_bounds(i2);
                    wo.inventories.lemma_len_le_limit();
                    if is_iattach_entity(oa, ei) {
                        assert(i2 as u32 != i as u32);
                        assert(contains_id(wn.entity_at(ei).child_inventories@, i2 as u32));
                    } else {
                        assert(wn.entity_at(ei) == wo.entity_at(ei));
                    }
                }
            },
            InventoryAttachment::Structure(sid) => {
                let si = sid.0 as int;
                if Some(sid.0) != ds {
                    assert(wo.structure_live(si));
                    assert(contains_id(wo.structure_at(si).child_inventories@, i2 as u32));
                    wo.inventories.lemma_live_bounds(i2);
                    wo.inventories.lemma_len_le_limit();
                    if is_iattach_structure(oa, si) {
                        assert(i2 as u32 != i as u32);
                        assert(contains_id(wn.structure_at(si).child_inventories@, i2 as u32));
                    } else {
                        assert(wn.structure_at(si) == wo.structure_at(si));
                    }
                }
            },
            InventoryAttachment::World => {},
        }
    }
    assert forall|cpos: V2| match #[trigger] wn.chunk_at(cpos) {
        Some(tc) => wn.wf_chunk_obj(cpos, tc),
        None => true,
    } by {
        match wn.chunk_at(cpos) {
            Some(tc) => {
                assert(wo.chunk_at(cpos) == Some(tc));
                assert(wo.wf_chunk_obj(cpos, tc));
                assert forall|j: int| 0 <= j < tc.child_structures@.len() implies
                    wn.structure_live(tc.child_structures@[j] as int) && wn.structure_at(
                    tc.child_structures@[j] as int,
                ).attachment == StructureAttachment::Chunk && spec_chunk_of(
                    V2 {
                        x: wn.structure_at(tc.child_structures@[j] as int).pos.x,
                        y: wn.structure_at(tc.child_structures@[j] as int).pos.y,
                    },
                ) == cpos by {
                    let y = tc.child_structures@[j];
                    assert(wo.structure_live(y as int));
                    if is_iattach_structure(oa, y as int) {
                        assert(wn.structure_at(y as int).attachment == wo.structure_at(
                            y as int,
                        ).attachment && wn.structure_at(y as int).pos == wo.structure_at(
                            y as int,
                        ).pos);
                    } else {
                        assert(wn.structure_at(y as int) == wo.structure_at(y as int));
                    }
                }
            },
            None => {},
        }
    }
    assert forall|cpos: V2, sid: u32| #[trigger] wn.sbc_has(cpos, sid) implies wn.structure_live(
        sid as int,
    ) && spec_chunk_range(wn.s_bounds(sid as int)).contains(cpos) by {
        assert(wo.sbc_has(cpos, sid));
        if is_iattach_structure(oa, sid as int) {
            assert(wn.structure_at(sid as int).pos == wo.structure_at(sid as int).pos
                && wn.structure_at(sid as int).template == wo.structure_at(sid as int).template);
        } else {
            assert(wn.structure_at(sid as int) == wo.structure_at(sid as int));
        }
    }
    assert forall|cpos: V2, sid: u32|
        wn.structure_live(sid as int) && spec_chunk_range(wn.s_bounds(sid as int)).contains(
            cpos,
        ) implies #[trigger] wn.sbc_has(cpos, sid) by {
        assert(wo.structure_live(sid as int));
        if is_iattach_structure(oa, sid as int) {
            assert(wn.s_bounds(sid as int) == wo.s_bounds(sid as int));
        } else {
            assert(wn.structure_at(sid as int) == wo.structure_at(sid as int));
        }
        assert(wo.sbc_has(cpos, sid));
    }
    assert forall|cpos: V2| match #[trigger] wn.structures_by_chunk.spec_get(spec_pack_v2(cpos)) {
        Some(l) => sorted_unique(l@),
        None => true,
    } by {
        assert(wn.structures_by_chunk.spec_get(spec_pack_v2(cpos))
            == wo.structures_by_chunk.spec_get(spec_pack_v2(cpos)));
    }
    assert forall|s1: int, s2: int|
        wn.structure_live(s1) && wn.structure_live(s2) && s1 != s2 implies !(
    #[trigger] wn.s_bounds(s1)).spec_overlaps(#[trigger] wn.s_bounds(s2)) by {
        assert(wo.structure_live(s1) && wo.structure_live(s2));
        assert(wn.s_bounds(s1) == wo.s_bounds(s1) && wn.s_bounds(s2) == wo.s_bounds(s2)) by {
            if is_iattach_structure(oa, s1) {
                assert(wn.structure_at(s1).pos == wo.structure_at(s1).pos && wn.structure_at(
                    s1,
                ).template == wo.structure_at(s1).template);
            } else {
                assert(wn.structure_at(s1) == wo.structure_at(s1));
            }
            if is_iattach_structure(oa, s2) {
                assert(wn.structure_at(s2).pos == wo.structure_at(s2).pos && wn.structure_at(
                    s2,
                ).template == wo.structure_at(s2).template);
            } else {
                assert(wn.structure_at(s2) == wo.structure_at(s2));
            }
        }
        assert(!wo.s_bounds(s1).spec_overlaps(wo.s_bounds(s2)));
    }
}

/// Removes inventory `iid`, detaching it from its parent, and fires the
/// destroy hook.
pub fn inventory_destroy(w: &mut World, hooks: &mut Vec<HookEvent>, iid: InventoryId) -> (r:
    OpResult<()>)
    requires
        old(w).wf(),
    ensures
        final(w).wf(),
        match r {
            Ok(()) => {
                &&& old(w).inventory_live(iid.0 as int)
                &&& !final(w).inventory_live(iid.0 as int)
                &&& inventories_same_except(*old(w), *final(w), iid.0 as int)
                &&& (old(w).inventories.stable_of(iid.0 as int) != crate::types::NO_STABLE_ID
                    ==> final(w).inventories.spec_transient_of(
                    old(w).inventories.stable_of(iid.0 as int),
                ) == None::<u32>)
                &&& (forall|s: StableId|
                    s != old(w).inventories.stable_of(iid.0 as int) ==> #[trigger] final(w).inventories.spec_transient_of(s) == old(w).inventories.spec_transient_of(
                        s,
                    ))
                &&& final(w).terrain_chunks == old(w).terrain_chunks
                &&& final(w).structures_by_chunk == old(w).structures_by_chunk
                &&& final(w).data == old(w).data
                &&& final(hooks)@ == old(hooks)@.push(HookEvent::InventoryDestroy(iid))
            },
            Err(_) => {
                &&& *final(w) == *old(w)
                &&& final(hooks)@ == old(hooks)@
                &&& !old(w).inventory_live(iid.0 as int)
            },
        },
{
    inventory_destroy_x(
        w,
        hooks,
        iid,
        Ghost(None),
        Ghost(Set::empty()),
        Ghost(None),
        Ghost(None),
    )
}



/// The client table after detaching entity `e` (attachment `oa`) from its
/// parent: only that parent's child set (and possibly pawn) changed.
pub open spec fn clients_after_detach(wo: World, wn: World, e: int, oa: EntityAttachment) -> bool {
    &&& wn.clients.wf()
    &&& wn.clients.spec_limit() == wo.clients.spec_limit()
    &&& wn.clients.spec_next_stable() == wo.clients.spec_next_stable()
    &&& forall|c: int|
        !is_attach_client(oa, c) ==> {
            &&& wo.client_live(c) == wn.client_live(c)
            &&& (wo.client_live(c) ==> wn.client_at(c) == wo.client_at(c)
                && wn.clients.stable_of(c) == wo.clients.stable_of(c))
        }
    &&& forall|c: int|
        #[trigger] is_attach_client(oa, c) && wo.client_live(c) ==> {
            &&& wn.client_live(c)
            &&& wn.clients.stable_of(c) == wo.clients.stable_of(c)
            &&& sorted_unique(wn.client_at(c).child_entities@)
            &&& (forall|y: u32| #[trigger]
                contains_id(wn.client_at(c).child_entities@, y) == (contains_id(
                    wo.client_at(c).child_entities@,
                    y,
                ) && y != e as u32))
            &&& wn.client_at(c).pawn == (if wo.client_at(c).pawn == Some(EntityId(e as u32)) {
                None::<EntityId>
            } else {
                wo.client_at(c).pawn
            })
            &&& wn.client_at(c) == (Client {
                child_entities: wn.client_at(c).child_entities,
                pawn: wn.client_at(c).pawn,
                ..wo.client_at(c)
            })
        }
}

/// The inventory-destroy events for a list of child inventory ids, in order.
pub open spec fn spec_inv_destroy_events(s: Seq<u32>) -> Seq<HookEvent> {
    s.map_values(|y: u32| HookEvent::InventoryDestroy(InventoryId(y)))
}

/// Membership in the first `k` elements.
pub open spec fn contains_prefix(s: Seq<u32>, k: int, y: u32) -> bool {
    exists|j: int| 0 <= j < k && s[j] == y
}

/// Removes entity `eid`: detaches it from its parent client (clearing the
/// pawn slot if needed), destroys its child inventories in slot order, then
/// fires the entity-destroy hook.
pub fn entity_destroy(w: &mut World, hooks: &mut Vec<HookEvent>, eid: EntityId) -> (r: OpResult<
    (),
>)
    requires
        old(w).wf(),
    ensures
        final(w).wf(),
        match r {
            Ok(()) => {
                &&& old(w).entity_live(eid.0 as int)
                &&& !final(w).entity_live(eid.0 as int)
                &&& entities_same_except(*old(w), *final(w), eid.0 as int)
                &&& (forall|i2: int|
                    !contains_id(
                        old(w).entity_at(eid.0 as int).child_inventories@,
                        i2 as u32,
                    ) || !(0 <= i2 <= u32::MAX) ==> {
                        &&& old(w).inventory_live(i2) == final(w).inventory_live(i2)
                        &&& (old(w).inventory_live(i2) ==> final(w).inventory_at(i2) == old(w).inventory_at(i2))
                    })
                &&& (forall|i2: int|
                    0 <= i2 <= u32::MAX && contains_id(
                        old(w).entity_at(eid.0 as int).child_inventories@,
                        i2 as u32,
                    ) ==> !final(w).inventory_live(i2))
                &&& (old(w).entities.stable_of(eid.0 as int) != crate::types::NO_STABLE_ID
                    ==> final(w).entities.spec_transient_of(
                    old(w).entities.stable_of(eid.0 as int),
                ) == None::<u32>)
                &&& (forall|s: StableId|
                    s != old(w).entities.stable_of(eid.0 as int) ==> #[trigger] final(w).entities.spec_transient_of(s) == old(w).entities.spec_transient_of(s))
                &&& (forall|s: StableId| #[trigger]
                    final(w).inventories.spec_transient_of(s) == old(w).inventories.spec_transient_of(s) || (final(w).inventories.spec_transient_of(
                        s,
                    ) == None::<u32> && match old(w).inventories.spec_transient_of(s) {
                        Some(t) => contains_id(
                            old(w).entity_at(eid.0 as int).child_inventories@,
                            t,
                        ),
                        None => false,
                    }))
                &&& final(w).structures == old(w).structures
                &&& final(w).terrain_chunks == old(w).terrain_chunks
                &&& final(w).structures_by_chunk == old(w).structures_by_chunk
                &&& final(w).data == old(w).data
                &&& final(hooks)@ == old(hooks)@ + spec_inv_destroy_events(
                    old(w).entity_at(eid.0 as int).child_inventories@,
                ).push(HookEvent::EntityDestroy(eid))
            },
            Err(_) => {
                &&& *final(w) == *old(w)
                &&& final(hooks)@ == old(hooks)@
                &&& !old(w).entity_live(eid.0 as int)
            },
        },
{
    let ghost wo = *old(w);
    let e = match w.entities.remove(eid.0) {
        Some(e) => e,
        None => {
            return Err("no entity with given id");
        },
    };
    proof {
        assert(wo.entity_live(eid.0 as int));
        assert(wo.wf_entity_obj(eid.0 as int, None));
    }
    match e.attachment {
        EntityAttachment::World => {},
        EntityAttachment::Chunk => {
            proof {
                assert(false);
            }
        },
        EntityAttachment::Client(cid) => {
            proof {
                assert(wo.client_live(cid.0 as int));
                assert(wo.wf_client_obj(cid.0 as int));
            }
            match w.clients.get_mut(cid.0 as u32) {
                Some(c) => {
                    let clear: bool = match c.pawn {
                        Some(p) => p.0 == eid.0,
                        None => false,
                    };
                    if clear {
                        c.pawn = None;
                    }
                    idset_remove(&mut c.child_entities, eid.0);
                },
                None => {
                    proof {
                        assert(false);
                    }
                },
            }
        },
    }
    let ghost de = Set::empty().insert(eid.0);
    let ghost went = w.entities;
    proof {
        lemma_entity_remove_preserves(wo, *w, eid.0 as int, e.attachment, Some(e), de);
    }
    proof {
        assert(clients_after_detach(wo, *w, eid.0 as int, e.attachment));
    }
    let children = e.child_inventories;
    let n = children.len();
    let mut k: usize = 0;
    while k < n
        invariant
            w.wf_x(None, de, None, None),
            de == Set::<u32>::empty().insert(eid.0),
            wo.wf(),
            wo.entity_live(eid.0 as int),
            children@ == wo.entity_at(eid.0 as int).child_inventories@,
            n == children@.len(),
            0 <= k <= n,
            sorted_unique(children@),
            !w.entity_live(eid.0 as int),
            entities_same_except(wo, *w, eid.0 as int),
            w.entities == went,
            clients_after_detach(wo, *w, eid.0 as int, wo.entity_at(eid.0 as int).attachment),
            w.structures == wo.structures,
            w.terrain_chunks == wo.terrain_chunks,
            w.structures_by_chunk == wo.structures_by_chunk,
            w.data == wo.data,
            w.inventories.spec_next_stable() == wo.inventories.spec_next_stable(),
            w.inventories.spec_limit() == wo.inventories.spec_limit(),
            forall|s: StableId|
                #![trigger w.inventories.spec_transient_of(s)]
                w.inventories.spec_transient_of(s) == wo.inventories.spec_transient_of(s) || (
                w.inventories.spec_transient_of(s) == None::<u32>
                    && match wo.inventories.spec_transient_of(s) {
                    Some(t) => contains_prefix(children@, k as int, t),
                    None => false,
                }),
            forall|j: int|
                k <= j < n ==> w.inventory_live(children@[j] as int) && w.inventory_at(
                    children@[j] as int,
                ).attachment == InventoryAttachment::Entity(eid),
            forall|i2: int|
                #![trigger wo.inventory_live(i2)]
                #![trigger w.inventory_live(i2)]
                !(0 <= i2 <= u32::MAX) || !contains_prefix(children@, k as int, i2 as u32)
                    ==> {
                    &&& wo.inventory_live(i2) == w.inventory_live(i2)
                    &&& (wo.inventory_live(i2) ==> w.inventory_at(i2) == wo.inventory_at(i2)
                        && w.inventories.stable_of(i2) == wo.inventories.stable_of(i2))
                },
            forall|i2: int|
                0 <= i2 <= u32::MAX && contains_prefix(children@, k as int, i2 as u32)
                    ==> !w.inventory_live(i2),
            hooks@ == old(hooks)@ + spec_inv_destroy_events(children@.take(k as int)),
        decreases n - k,
    {
        let iid = InventoryId(children[k]);
        let ghost prev = *w;
        let res = inventory_destroy_x(
            w,
            hooks,
            iid,
            Ghost(None),
            Ghost(de),
            Ghost(None),
            Ghost(None),
        );
        proof {
            assert(res is Ok);
            let ghost ia = prev.inventory_at(iid.0 as int).attachment;
            assert(ia == InventoryAttachment::Entity(eid));
            assert(!prev.entity_live(eid.0 as int));
            let ghost oa0 = wo.entity_at(eid.0 as int).attachment;
            assert forall|e2: int| e2 != eid.0 as int implies (wo.entity_live(e2)
                == w.entity_live(e2) && (wo.entity_live(e2) ==> w.entity_at(e2) == wo.entity_at(
                e2,
            ) && w.entities.stable_of(e2) == wo.entities.stable_of(e2))) by {
                assert(!is_iattach_entity(ia, e2));
                assert(prev.entity_live(e2) == w.entity_live(e2) && (prev.entity_live(e2)
                    ==> w.entity_at(e2) == prev.entity_at(e2) && w.entities.stable_of(e2)
                    == prev.entities.stable_of(e2)));
            }
            assert forall|c: int| !is_attach_client(oa0, c) implies (wo.client_live(c)
                == w.client_live(c) && (wo.client_live(c) ==> w.client_at(c) == wo.client_at(c)
                && w.clients.stable_of(c) == wo.clients.stable_of(c))) by {
                assert(!is_iattach_client(ia, c));
            }
            assert forall|c: int| #[trigger] is_attach_client(oa0, c) && wo.client_live(
                c,
            ) implies (w.client_live(c) && w.clients.stable_of(c) == wo.clients.stable_of(c)
                && w.client_at(c) == prev.client_at(c)) by {
                assert(!is_iattach_client(ia, c));
            }
            assert(clients_after_detach(wo, *w, eid.0 as int, oa0));
            let ghost s_drop = prev.inventories.stable_of(iid.0 as int);
            assert forall|s: StableId|
                #![trigger w.inventories.spec_transient_of(s)]
                w.inventories.spec_transient_of(s) == wo.inventories.spec_transient_of(s) || (
                w.inventories.spec_transient_of(s) == None::<u32>
                    && match wo.inventories.spec_transient_of(s) {
                    Some(t) => contains_prefix(children@, k as int + 1, t),
                    None => false,
                }) by {
                if s == s_drop && s_drop != crate::types::NO_STABLE_ID {
                    assert(w.inventories.spec_transient_of(s) == None::<u32>);
                    prev.inventories.lemma_stable_lookup(iid.0 as int);
                    assert(prev.inventories.spec_transient_of(s) == Some(iid.0));
                    assert(wo.inventories.spec_transient_of(s) == Some(iid.0));
                    assert(children@[k as int] == iid.0);
                    assert(contains_prefix(children@, k as int + 1, iid.0));
                } else {
                    assert(w.inventories.spec_transient_of(s)
                        == prev.inventories.spec_transient_of(s)) by {
                        if s == crate::types::NO_STABLE_ID {
                            w.inventories.lemma_transient_of_zero();
                            prev.inventories.lemma_transient_of_zero();
                        }
                    }
                    if prev.inventories.spec_transient_of(s)
                        != wo.inventories.spec_transient_of(s) {
                        match wo.inventories.spec_transient_of(s) {
                            Some(t) => {
                                assert(contains_prefix(children@, k as int, t));
                                let j0 = choose|j0: int|
                                    0 <= j0 < k as int && children@[j0] == t;
                                assert(0 <= j0 < k as int + 1 && children@[j0] == t);
                                assert(contains_prefix(children@, k as int + 1, t));
                            },
                            None => {},
                        }
                    }
                }
            }
            assert forall|j: int|
                k + 1 <= j < n implies w.inventory_live(children@[j] as int) && w.inventory_at(
                children@[j] as int,
            ).attachment == InventoryAttachment::Entity(eid) by {
                crate::idset::lemma_sorted_distinct(children@, j, k as int);
            }
            assert(hooks@ =~= old(hooks)@ + spec_inv_destroy_events(
                children@.take(k as int + 1),
            ));
        }
        k += 1;
    }
    proof {
        assert(children@.take(n as int) =~= children@);
        assert forall|i2: int| #[trigger] w.inventory_live(i2) implies w.wf_inventory_obj(
            i2,
            None,
            Set::empty(),
            None,
        ) by {
            assert(w.wf_inventory_obj(i2, None, de, None));
            match w.inventory_at(i2).attachment {
                InventoryAttachment::Entity(eid2) => {
                    if de.contains(eid2.0) {
                        assert(eid2.0 == eid.0);
                        w.inventories.lemma_live_bounds(i2);
                        w.inventories.lemma_len_le_limit();
                        if contains_prefix(children@, n as int, i2 as u32) {
                            assert(!w.inventory_live(i2));
                        } else {
                            assert(wo.inventory_live(i2) && wo.inventory_at(i2)
                                == w.inventory_at(i2));
                            assert(wo.wf_inventory_obj(i2, None, Set::empty(), None));
                            assert(contains_id(
                                wo.entity_at(eid.0 as int).child_inventories@,
                                i2 as u32,
                            ));
                            assert(contains_prefix(children@, n as int, i2 as u32));
                        }
                        assert(false);
                    }
                },
                _ => {},
            }
        }
        assert(w.wf());
        assert(w.entities == went);
        assert forall|s: StableId|
            s != wo.entities.stable_of(eid.0 as int) implies #[trigger]
            w.entities.spec_transient_of(s) == wo.entities.spec_transient_of(s) by {}
        assert forall|s: StableId| #[trigger] w.inventories.spec_transient_of(s)
            == wo.inventories.spec_transient_of(s) || (w.inventories.spec_transient_of(s)
            == None::<u32> && match wo.inventories.spec_transient_of(s) {
            Some(t) => contains_id(wo.entity_at(eid.0 as int).child_inventories@, t),
            None => false,
        }) by {
            if w.inventories.spec_transient_of(s) != wo.inventories.spec_transient_of(s) {
                match wo.inventories.spec_transient_of(s) {
                    Some(t) => {
                        assert(contains_prefix(children@, n as int, t));
                        let j0 = choose|j0: int| 0 <= j0 < n as int && children@[j0] == t;
                        assert(contains_id(children@, t));
                    },
                    None => {},
                }
            }
        }
    }
    hooks.push(HookEvent::EntityDestroy(eid));
    proof {
        assert(hooks@ =~= old(hooks)@ + spec_inv_destroy_events(
            wo.entity_at(eid.0 as int).child_inventories@,
        ).push(HookEvent::EntityDestroy(eid)));
    }
    Ok(())
}

/// After removing an entity row and detaching it from its client, the world
/// satisfies the invariants waived for the entity's dangling inventories.
proof fn lemma_entity_remove_preserves(
    wo: World,
    wn: World,
    e: int,
    oa: EntityAttachment,
    removed: Option<Entity>,
    de: Set<u32>,
)
    requires
        wo.wf(),
        wo.entity_live(e),
        0 <= e <= u32::MAX,
        de == Set::<u32>::empty().insert(e as u32),
        oa == wo.entity_at(e).attachment,
        !(oa is Chunk),
        !wn.entity_live(e),
        entities_same_except(wo, wn, e),
        wn.entities.wf(),
        wn.clients.wf(),
        wn.clients.spec_limit() == wo.clients.spec_limit(),
        wn.clients.spec_next_stable() == wo.clients.spec_next_stable(),
        forall|c: int|
            !is_attach_client(oa, c) ==> {
                &&& wo.client_live(c) == wn.client_live(c)
                &&& (wo.client_live(c) ==> wn.client_at(c) == wo.client_at(c)
                    && wn.clients.stable_of(c) == wo.clients.stable_of(c))
            },
        forall|c: int|
            #[trigger] is_attach_client(oa, c) ==> {
                &&& wo.client_live(c)
                &&& wn.client_live(c)
                &&& wn.clients.stable_of(c) == wo.clients.stable_of(c)
                &&& sorted_unique(wn.client_at(c).child_entities@)
                &&& (forall|y: u32| #[trigger]
                    contains_id(wn.client_at(c).child_entities@, y) == (contains_id(
                        wo.client_at(c).child_entities@,
                        y,
                    ) && y != e as u32))
                &&& wn.client_at(c).pawn == (if wo.client_at(c).pawn == Some(
                    EntityId(e as u32),
                ) {
                    None::<EntityId>
                } else {
                    wo.client_at(c).pawn
                })
                &&& wn.client_at(c) == (Client {
                    child_entities: wn.client_at(c).child_entities,
                    pawn: wn.client_at(c).pawn,
                    ..wo.client_at(c)
                })
            },
        wn.inventories == wo.inventories,
        wn.structures == wo.structures,
        wn.terrain_chunks == wo.terrain_chunks,
        wn.structures_by_chunk == wo.structures_by_chunk,
        wn.data == wo.data,
    ensures
        wn.wf_x(None, de, None, None),
{
    assert forall|c: int| #[trigger] wn.client_live(c) implies wn.wf_client_obj(c) by {
        assert(wo.client_live(c)) by {
            if !is_attach_client(oa, c) {
            }
        }
        wo.clients.lemma_live_bounds(c);
        wo.clients.lemma_len_le_limit();
        assert(wo.wf_client_obj(c));
        let obj = wn.client_at(c);
        let oldobj = wo.client_at(c);
        assert forall|j: int| 0 <= j < obj.child_entities@.len() implies wn.entity_live(
            obj.child_entities@[j] as int,
        ) && wn.entity_at(obj.child_entities@[j] as int).attachment == EntityAttachment::Client(
            ClientId(c as u16),
        ) by {
            let y = obj.child_entities@[j];
            assert(contains_id(obj.child_entities@, y));
            assert(contains_id(oldobj.child_entities@, y)) by {
                if is_attach_client(oa, c) {
                } else {
                    assert(obj == oldobj);
                }
            }
            let j0 = choose|j0: int|
                0 <= j0 < oldobj.child_entities@.len() && oldobj.child_entities@[j0] == y;
            assert(wo.entity_live(oldobj.child_entities@[j0] as int));
            assert(wo.entity_at(y as int).attachment == EntityAttachment::Client(
                ClientId(c as u16),
            ));
            assert(y as int != e) by {
                if y as int == e {
                    assert(is_attach_client(oa, c));
                    assert(!contains_id(obj.child_entities@, e as u32));
                }
            }
            assert(wn.entity_at(y as int) == wo.entity_at(y as int));
        }
        match obj.pawn {
            Some(pe) => {
                if pe.0 as int == e {
                    if is_attach_client(oa, c) {
                        assert(false);
                    } else {
                        assert(oldobj.pawn == Some(pe));
                        assert(wo.entity_at(e).attachment == EntityAttachment::Client(
                            ClientId(c as u16),
                        ));
                        assert(is_attach_client(oa, c));
                        assert(false);
                    }
                } else {
                    assert(oldobj.pawn == Some(pe));
                    assert(wo.entity_live(pe.0 as int));
                    assert(wn.entity_at(pe.0 as int) == wo.entity_at(pe.0 as int));
                }
            },
            None => {},
        }
        assert(obj.child_inventories == oldobj.child_inventories);
        assert forall|j: int| 0 <= j < obj.child_inventories@.len() implies wn.inventory_live(
            obj.child_inventories@[j] as int,
        ) && wn.inventory_at(obj.child_inventories@[j] as int).attachment
            == InventoryAttachment::Client(ClientId(c as u16)) by {
            assert(wo.inventory_live(obj.child_inventories@[j] as int));
        }
    }
    assert forall|e2: int| #[trigger] wn.entity_live(e2) implies wn.wf_entity_obj(e2, None) by {
        assert(e2 != e);
        assert(wo.entity_live(e2));
        assert(wo.wf_entity_obj(e2, None));
        let obj = wn.entity_at(e2);
        assert(obj == wo.entity_at(e2));
        match obj.attachment {
            EntityAttachment::Client(cid) => {
                let ci = cid.0 as int;
                assert(wo.client_live(ci));
                assert(contains_id(wo.client_at(ci).child_entities@, e2 as u32));
                wo.entities.lemma_live_bounds(e2);
                wo.entities.lemma_len_le_limit();
                if is_attach_client(oa, ci) {
                    assert(e2 as u32 != e as u32);
                    assert(contains_id(wn.client_at(ci).child_entities@, e2 as u32));
                } else {
                    assert(wn.client_at(ci) == wo.client_at(ci));
                }
            },
            _ => {},
        }
        assert forall|j: int| 0 <= j < obj.child_inventories@.len() implies wn.inventory_live(
            obj.child_inventories@[j] as int,
        ) && wn.inventory_at(obj.child_inventories@[j] as int).attachment
            == InventoryAttachment::Entity(EntityId(e2 as u32)) by {
            assert(wo.inventory_live(obj.child_inventories@[j] as int));
        }
    }
    assert forall|st: int| #[trigger] wn.structure_live(st) implies wn.wf_structure_obj(
        st,
        None,
    ) by {
        assert(wo.structure_live(st));
        assert(wo.wf_structure_obj(st, None));
    }
    assert forall|i: int| #[trigger] wn.inventory_live(i) implies wn.wf_inventory_obj(
        i,
        None,
        de,
        None,
    ) by {
        assert(wo.inventory_live(i));
        assert(wo.wf_inventory_obj(i, None, Set::empty(), None));
        match wn.inventory_at(i).attachment {
            InventoryAttachment::Client(cid) => {
                let ci = cid.0 as int;
                assert(wo.client_live(ci));
                assert(contains_id(wo.client_at(ci).child_inventories@, i as u32));
                if is_attach_client(oa, ci) {
                    assert(wn.client_at(ci).child_inventories == wo.client_at(
                        ci,
                    ).child_inventories);
                } else {
                    assert(wn.client_at(ci) == wo.client_at(ci));
                }
            },
            InventoryAttachment::Entity(eid2) => {
                if eid2.0 as int != e {
                    assert(wo.entity_live(eid2.0 as int));
                    assert(wn.entity_at(eid2.0 as int) == wo.entity_at(eid2.0 as int));
                } else {
                    assert(de.contains(eid2.0));
                }
            },
            _ => {},
        }
    }
    assert forall|cpos: V2| match #[trigger] wn.chunk_at(cpos) {
        Some(tc) => wn.wf_chunk_obj(cpos, tc),
        None => true,
    } by {
        match wn.chunk_at(cpos) {
            Some(tc) => {
                assert(wo.chunk_at(cpos) == Some(tc));
                assert(wo.wf_chunk_obj(cpos, tc));
            },
            None => {},
        }
    }
    lemma_sbc_unchanged(wo, wn);
}


/// The child inventories of each entity in `ents`, concatenated in order.
pub open spec fn concat_child_invs(wo: World, ents: Seq<u32>) -> Seq<u32>
    decreases ents.len(),
{
    if ents.len() == 0 {
        Seq::empty()
    } else {
        wo.entity_at(ents[0] as int).child_inventories@ + concat_child_invs(
            wo,
            ents.drop_first(),
        )
    }
}

/// Concatenation unrolls one list at a time.
proof fn lemma_concat_snoc(wo: World, ents: Seq<u32>, k: int)
    requires
        0 <= k < ents.len(),
    ensures
        concat_child_invs(wo, ents.take(k + 1)) == concat_child_invs(wo, ents.take(k))
            + wo.entity_at(ents[k] as int).child_inventories@,
    decreases k,
{
    if k == 0 {
        let s1 = ents.take(1);
        assert(s1.len() == 1 && s1[0] == ents[0]);
        assert(s1.drop_first() =~= Seq::<u32>::empty());
        assert(concat_child_invs(wo, s1.drop_first()).len() == 0);
        assert(concat_child_invs(wo, s1) == wo.entity_at(s1[0] as int).child_inventories@
            + concat_child_invs(wo, s1.drop_first()));
        assert(ents.take(0) =~= Seq::<u32>::empty());
        assert(concat_child_invs(wo, ents.take(0)).len() == 0);
        assert(concat_child_invs(wo, ents.take(1)) =~= concat_child_invs(wo, ents.take(0))
            + wo.entity_at(ents[0] as int).child_inventories@);
    } else {
        lemma_concat_snoc(wo, ents.drop_first(), k - 1);
        assert(ents.take(k + 1).drop_first() =~= ents.drop_first().take(k));
        assert(ents.take(k).drop_first() =~= ents.drop_first().take(k - 1));
        assert(ents.take(k + 1)[0] == ents[0] && ents.take(k)[0] == ents[0]);
        assert(ents.drop_first()[k - 1] == ents[k]);
        assert(concat_child_invs(wo, ents.take(k + 1)) == wo.entity_at(
            ents[0] as int,
        ).child_inventories@ + concat_child_invs(wo, ents.drop_first().take(k)));
        assert(concat_child_invs(wo, ents.take(k)) == wo.entity_at(
            ents[0] as int,
        ).child_inventories@ + concat_child_invs(wo, ents.drop_first().take(k - 1)));
        assert(concat_child_invs(wo, ents.take(k + 1)) =~= concat_child_invs(wo, ents.take(k))
            + wo.entity_at(ents[k] as int).child_inventories@);
    }
}

/// Removes a client and cascades to its child entities and inventories.
/// Hook order: one entity-destroy per child entity in slot order, then the
/// inventory-destroy events (entities' inventories first, then the client's
/// own), then the client-destroy event.
pub fn client_destroy(w: &mut World, hooks: &mut Vec<HookEvent>, cid: ClientId) -> (r: OpResult<
    (),
>)
    requires
        old(w).wf(),
    ensures
        final(w).wf(),
        match r {
            Ok(()) => {
                &&& old(w).client_live(cid.0 as int)
                &&& !final(w).client_live(cid.0 as int)
                &&& clients_same_except(*old(w), *final(w), cid.0 as int)
                &&& (forall|e2: int|
                    0 <= e2 <= u32::MAX && contains_id(
                        old(w).client_at(cid.0 as int).child_entities@,
                        e2 as u32,
                    ) ==> !final(w).entity_live(e2))
                &&& (forall|e2: int|
                    !(0 <= e2 <= u32::MAX) || !contains_id(
                        old(w).client_at(cid.0 as int).child_entities@,
                        e2 as u32,
                    ) ==> old(w).entity_live(e2) == final(w).entity_live(e2) && (old(w).entity_live(e2) ==> final(w).entity_at(e2) == old(w).entity_at(e2)))
                &&& (forall|i2: int|
                    0 <= i2 <= u32::MAX && (contains_id(
                        concat_child_invs(
                            *old(w),
                            old(w).client_at(cid.0 as int).child_entities@,
                        ),
                        i2 as u32,
                    ) || contains_id(
                        old(w).client_at(cid.0 as int).child_inventories@,
                        i2 as u32,
                    )) ==> !final(w).inventory_live(i2))
                &&& (old(w).clients.stable_of(cid.0 as int) != crate::types::NO_STABLE_ID
                    ==> final(w).clients.spec_transient_of(
                    old(w).clients.stable_of(cid.0 as int),
                ) == None::<u32>)
                &&& (forall|s: StableId|
                    s != old(w).clients.stable_of(cid.0 as int) ==> #[trigger] final(w).clients.spec_transient_of(s) == old(w).clients.spec_transient_of(s))
                &&& (forall|s: StableId| #[trigger]
                    final(w).entities.spec_transient_of(s) == old(w).entities.spec_transient_of(s) || (final(w).entities.spec_transient_of(s)
                        == None::<u32> && match old(w).entities.spec_transient_of(s) {
                        Some(t) => contains_id(
                            old(w).client_at(cid.0 as int).child_entities@,
                            t,
                        ),
                        None => false,
                    }))
                &&& (forall|s: StableId| #[trigger]
                    final(w).inventories.spec_transient_of(s) == old(w).inventories.spec_transient_of(s) || (final(w).inventories.spec_transient_of(
                        s,
                    ) == None::<u32> && match old(w).inventories.spec_transient_of(s) {
                        Some(t) => contains_id(
                            concat_child_invs(
                                *old(w),
                                old(w).client_at(cid.0 as int).child_entities@,
                            ) + old(w).client_at(cid.0 as int).child_inventories@,
                            t,
                        ),
                        None => false,
                    }))
                &&& final(w).structures == old(w).structures
                &&& final(w).terrain_chunks == old(w).terrain_chunks
                &&& final(w).structures_by_chunk == old(w).structures_by_chunk
                &&& final(w).data == old(w).data
                &&& final(hooks)@ == old(hooks)@ + old(w).client_at(
                    cid.0 as int,
                ).child_entities@.map_values(
                    |y: u32| HookEvent::EntityDestroy(EntityId(y)),
                ) + spec_inv_destroy_events(
                    concat_child_invs(*old(w), old(w).client_at(cid.0 as int).child_entities@)
                        + old(w).client_at(cid.0 as int).child_inventories@,
                ).push(HookEvent::ClientDestroy(cid))
            },
            Err(_) => {
                &&& *final(w) == *old(w)
                &&& final(hooks)@ == old(hooks)@
                &&& !old(w).client_live(cid.0 as int)
            },
        },
{
    let ghost wo = *old(w);
    let c = match w.clients.remove(cid.0 as u32) {
        Some(c) => c,
        None => {
            return Err("no client with given id");
        },
    };
    let ghost wcl = w.clients;
    proof {
        assert(wo.client_live(cid.0 as int));
        assert(wo.wf_client_obj(cid.0 as int));
        lemma_client_remove_preserves(wo, *w, cid.0 as int);
    }
    let ents = c.child_entities;
    let n = ents.len();
    let mut invs: Vec<u32> = Vec::new();
    let mut k: usize = 0;
    while k < n
        invariant
            w.wf_x(Some(cid.0), ents@.take(k as int).to_set(), None, None),
            wo.wf(),
            wo.client_live(cid.0 as int),
            ents@ == wo.client_at(cid.0 as int).child_entities@,
            n == ents@.len(),
            0 <= k <= n,
            sorted_unique(ents@),
            !w.client_live(cid.0 as int),
            clients_same_except(wo, *w, cid.0 as int),
            w.clients == wcl,
            w.inventories == wo.inventories,
            w.structures == wo.structures,
            w.terrain_chunks == wo.terrain_chunks,
            w.structures_by_chunk == wo.structures_by_chunk,
            w.data == wo.data,
            w.entities.spec_next_stable() == wo.entities.spec_next_stable(),
            w.entities.spec_limit() == wo.entities.spec_limit(),
            forall|s: StableId|
                #![trigger w.entities.spec_transient_of(s)]
                w.entities.spec_transient_of(s) == wo.entities.spec_transient_of(s) || (
                w.entities.spec_transient_of(s) == None::<u32>
                    && match wo.entities.spec_transient_of(s) {
                    Some(t) => contains_prefix(ents@, k as int, t),
                    None => false,
                }),
            forall|j: int|
                k <= j < n ==> w.entity_live(ents@[j] as int) && w.entity_at(ents@[j] as int)
                    == wo.entity_at(ents@[j] as int),
            forall|e2: int|
                #![trigger wo.entity_live(e2)]
                #![trigger w.entity_live(e2)]
                !(0 <= e2 <= u32::MAX) || !contains_prefix(ents@, k as int, e2 as u32) ==> {
                    &&& wo.entity_live(e2) == w.entity_live(e2)
                    &&& (wo.entity_live(e2) ==> w.entity_at(e2) == wo.entity_at(e2)
                        && w.entities.stable_of(e2) == wo.entities.stable_of(e2))
                },
            forall|e2: int|
                0 <= e2 <= u32::MAX && contains_prefix(ents@, k as int, e2 as u32)
                    ==> !w.entity_live(e2),
            invs@ == concat_child_invs(wo, ents@.take(k as int)),
            hooks@ == old(hooks)@ + ents@.take(k as int).map_values(
                |y: u32| HookEvent::EntityDestroy(EntityId(y)),
            ),
        decreases n - k,
    {
        let eid = ents[k];
        let ghost prev = *w;
        let e = match w.entities.remove(eid) {
            Some(e) => e,
            None => {
                proof {
                    assert(false);
                }
                return Err("broken invariant");
            },
        };
        proof {
            assert(e == wo.entity_at(eid as int));
            assert(e.attachment == EntityAttachment::Client(cid));
            lemma_cascade_entity_remove_preserves(
                prev,
                *w,
                eid as int,
                cid.0,
                ents@.take(k as int).to_set(),
            );
            assert(ents@.take(k as int).to_set().insert(eid) =~= ents@.take(
                k as int + 1,
            ).to_set()) by {
                let s0 = ents@.take(k as int);
                let s1 = ents@.take(k as int + 1);
                assert(s1 =~= s0.push(eid));
                assert forall|y: u32| s1.contains(y) == (s0.contains(y) || y == eid) by {
                    if s0.contains(y) {
                        let i = choose|i: int| 0 <= i < s0.len() && s0[i] == y;
                        assert(s1[i] == y);
                    }
                    if y == eid {
                        assert(s1[s0.len() as int] == y);
                    }
                    if s1.contains(y) {
                        let i = choose|i: int| 0 <= i < s1.len() && s1[i] == y;
                        if i < s0.len() {
                            assert(s0[i] == y);
                        }
                    }
                }
            }
            lemma_concat_snoc(wo, ents@, k as int);
            assert forall|j: int|
                k + 1 <= j < n implies w.entity_live(ents@[j] as int) && w.entity_at(
                ents@[j] as int,
            ) == wo.entity_at(ents@[j] as int) by {
                crate::idset::lemma_sorted_distinct(ents@, j, k as int);
            }
            let ghost s_drop = prev.entities.stable_of(eid as int);
            assert forall|s: StableId|
                #![trigger w.entities.spec_transient_of(s)]
                w.entities.spec_transient_of(s) == wo.entities.spec_transient_of(s) || (
                w.entities.spec_transient_of(s) == None::<u32>
                    && match wo.entities.spec_transient_of(s) {
                    Some(t) => contains_prefix(ents@, k as int + 1, t),
                    None => false,
                }) by {
                if s == s_drop && s_drop != crate::types::NO_STABLE_ID {
                    assert(w.entities.spec_transient_of(s) == None::<u32>);
                    prev.entities.lemma_stable_lookup(eid as int);
                    assert(prev.entities.spec_transient_of(s) == Some(eid));
                    assert(wo.entities.spec_transient_of(s) == Some(eid));
                    assert(ents@[k as int] == eid);
                    assert(contains_prefix(ents@, k as int + 1, eid));
                } else {
                    assert(w.entities.spec_transient_of(s)
                        == prev.entities.spec_transient_of(s)) by {
                        if s == crate::types::NO_STABLE_ID {
                            w.entities.lemma_transient_of_zero();
                            prev.entities.lemma_transient_of_zero();
                        }
                    }
                    if prev.entities.spec_transient_of(s) != wo.entities.spec_transient_of(
                        s,
                    ) {
                        match wo.entities.spec_transient_of(s) {
                            Some(t) => {
                                assert(contains_prefix(ents@, k as int, t));
                                let j0 = choose|j0: int|
                                    0 <= j0 < k as int && ents@[j0] == t;
                                assert(0 <= j0 < k as int + 1 && ents@[j0] == t);
                                assert(contains_prefix(ents@, k as int + 1, t));
                            },
                            None => {},
                        }
                    }
                }
            }
        }
        proof {
            assert forall|e2: int|
                !(0 <= e2 <= u32::MAX) || !contains_prefix(ents@, k as int + 1, e2 as u32)
                    implies (wo.entity_live(e2) == w.entity_live(e2) && (wo.entity_live(e2)
                ==> w.entity_at(e2) == wo.entity_at(e2) && w.entities.stable_of(e2)
                == wo.entities.stable_of(e2))) by {
                if 0 <= e2 <= u32::MAX {
                    assert(!contains_prefix(ents@, k as int, e2 as u32)) by {
                        if contains_prefix(ents@, k as int, e2 as u32) {
                            let j = choose|j: int|
                                0 <= j < k as int && ents@[j] == e2 as u32;
                            assert(0 <= j < k as int + 1 && ents@[j] == e2 as u32);
                            assert(contains_prefix(ents@, k as int + 1, e2 as u32));
                        }
                    }
                    assert(e2 != eid as int) by {
                        if e2 == eid as int {
                            assert(ents@[k as int] == e2 as u32);
                            assert(contains_prefix(ents@, k as int + 1, e2 as u32));
                        }
                    }
                    assert(wo.entity_live(e2) == prev.entity_live(e2) && (wo.entity_live(e2)
                        ==> prev.entity_at(e2) == wo.entity_at(e2) && prev.entities.stable_of(
                        e2,
                    ) == wo.entities.stable_of(e2)));
                    assert(prev.entity_live(e2) == w.entity_live(e2) && (prev.entity_live(e2)
                        ==> w.entity_at(e2) == prev.entity_at(e2) && w.entities.stable_of(e2)
                        == prev.entities.stable_of(e2)));
                } else {
                    wo.entities.lemma_live_bounds(e2);
                    w.entities.lemma_live_bounds(e2);
                    wo.entities.lemma_len_le_limit();
                    w.entities.lemma_len_le_limit();
                    assert(!wo.entity_live(e2) && !w.entity_live(e2));
                }
            }
            assert forall|e2: int|
                0 <= e2 <= u32::MAX && contains_prefix(ents@, k as int + 1, e2 as u32)
                    implies !w.entity_live(e2) by {
                let j = choose|j: int| 0 <= j < k as int + 1 && ents@[j] == e2 as u32;
                if j < k {
                    assert(contains_prefix(ents@, k as int, e2 as u32));
                    assert(!prev.entity_live(e2));
                    assert(e2 != eid as int) by {
                        crate::idset::lemma_sorted_distinct(ents@, j, k as int);
                    }
                    assert(prev.entity_live(e2) == w.entity_live(e2));
                } else {
                    assert(e2 == eid as int);
                    assert(!w.entity_live(e2));
                }
            }
        }
        let mut echilds = e.child_inventories;
        invs.append(&mut echilds);
        hooks.push(HookEvent::EntityDestroy(EntityId(eid)));
        proof {
            assert(hooks@ =~= old(hooks)@ + ents@.take(k as int + 1).map_values(
                |y: u32| HookEvent::EntityDestroy(EntityId(y)),
            )) by {
                assert(ents@.take(k as int + 1) =~= ents@.take(k as int).push(eid));
            }
        }
        k += 1;
    }
    proof {
        assert(ents@.take(n as int) =~= ents@);
    }
    let ghost de_all = ents@.to_set();
    let mut all_invs = invs;
    let mut cchilds = c.child_inventories;
    let ghost invs_ents = concat_child_invs(wo, ents@);
    all_invs.append(&mut cchilds);
    proof {
        assert(all_invs@ == invs_ents + wo.client_at(cid.0 as int).child_inventories@);
        lemma_cascade_inv_list_ok(wo, cid.0 as int, ents@, all_invs@);
    }
    proof {
        assert(entities_after_client_cascade(wo, *w, ents@)) by {
            assert forall|e2: int|
                !(0 <= e2 <= u32::MAX) || !contains_id(ents@, e2 as u32) implies (
            wo.entity_live(e2) == w.entity_live(e2) && (wo.entity_live(e2) ==> w.entity_at(e2)
                == wo.entity_at(e2) && w.entities.stable_of(e2) == wo.entities.stable_of(
                e2,
            ))) by {
                if 0 <= e2 <= u32::MAX {
                    assert(!contains_prefix(ents@, n as int, e2 as u32)) by {
                        if contains_prefix(ents@, n as int, e2 as u32) {
                            let j = choose|j: int|
                                0 <= j < n as int && ents@[j] == e2 as u32;
                            assert(0 <= j < ents@.len() && ents@[j] == e2 as u32);
                            assert(contains_id(ents@, e2 as u32));
                        }
                    }
                }
            }
            assert forall|e2: int|
                0 <= e2 <= u32::MAX && contains_id(ents@, e2 as u32) implies !w.entity_live(
                e2,
            ) by {
                let j = choose|j: int| 0 <= j < ents@.len() && ents@[j] == e2 as u32;
                assert(0 <= j < n as int && ents@[j] == e2 as u32);
                assert(contains_prefix(ents@, n as int, e2 as u32));
            }
        }
        assert forall|s: StableId|
            #![trigger w.entities.spec_transient_of(s)]
            w.entities.spec_transient_of(s) == wo.entities.spec_transient_of(s) || (
            w.entities.spec_transient_of(s) == None::<u32>
                && match wo.entities.spec_transient_of(s) {
                Some(t) => contains_id(ents@, t),
                None => false,
            }) by {
            if w.entities.spec_transient_of(s) != wo.entities.spec_transient_of(s) {
                match wo.entities.spec_transient_of(s) {
                    Some(t) => {
                        assert(contains_prefix(ents@, n as int, t));
                        let j0 = choose|j0: int| 0 <= j0 < n as int && ents@[j0] == t;
                        assert(contains_id(ents@, t));
                    },
                    None => {},
                }
            }
        }
    }
    let ghost wen2 = w.entities;
    let m = all_invs.len();
    let mut k2: usize = 0;
    while k2 < m
        invariant
            w.wf_x(Some(cid.0), de_all, None, None),
            wo.wf(),
            wo.client_live(cid.0 as int),
            de_all == ents@.to_set(),
            ents@ == wo.client_at(cid.0 as int).child_entities@,
            m == all_invs@.len(),
            0 <= k2 <= m,
            !w.client_live(cid.0 as int),
            clients_same_except(wo, *w, cid.0 as int),
            w.clients == wcl,
            w.entities == wen2,
            w.structures == wo.structures,
            w.terrain_chunks == wo.terrain_chunks,
            w.structures_by_chunk == wo.structures_by_chunk,
            w.data == wo.data,
            entities_after_client_cascade(wo, *w, ents@),
            forall|s: StableId|
                #![trigger w.entities.spec_transient_of(s)]
                w.entities.spec_transient_of(s) == wo.entities.spec_transient_of(s) || (
                w.entities.spec_transient_of(s) == None::<u32>
                    && match wo.entities.spec_transient_of(s) {
                    Some(t) => contains_id(ents@, t),
                    None => false,
                }),
            forall|s: StableId|
                #![trigger w.inventories.spec_transient_of(s)]
                w.inventories.spec_transient_of(s) == wo.inventories.spec_transient_of(s) || (
                w.inventories.spec_transient_of(s) == None::<u32>
                    && match wo.inventories.spec_transient_of(s) {
                    Some(t) => contains_prefix(all_invs@, k2 as int, t),
                    None => false,
                }),
            forall|a: int, b: int|
                0 <= a < b < all_invs@.len() ==> all_invs@[a] != all_invs@[b],
            forall|j: int|
                k2 <= j < m ==> w.inventory_live(all_invs@[j] as int) && w.inventory_at(
                    all_invs@[j] as int,
                ) == wo.inventory_at(all_invs@[j] as int),
            forall|j: int|
                #![trigger all_invs@[j]]
                0 <= j < m ==> (match wo.inventory_at(all_invs@[j] as int).attachment {
                    InventoryAttachment::Client(c2) => c2 == cid,
                    InventoryAttachment::Entity(e2) => de_all.contains(e2.0),
                    _ => false,
                }),
            w.inventories.spec_next_stable() == wo.inventories.spec_next_stable(),
            w.inventories.spec_limit() == wo.inventories.spec_limit(),
            forall|i2: int|
                #![trigger wo.inventory_live(i2)]
                #![trigger w.inventory_live(i2)]
                !(0 <= i2 <= u32::MAX) || !contains_prefix(all_invs@, k2 as int, i2 as u32)
                    ==> {
                    &&& wo.inventory_live(i2) == w.inventory_live(i2)
                    &&& (wo.inventory_live(i2) ==> w.inventory_at(i2) == wo.inventory_at(i2)
                        && w.inventories.stable_of(i2) == wo.inventories.stable_of(i2))
                },
            forall|i2: int|
                0 <= i2 <= u32::MAX && contains_prefix(all_invs@, k2 as int, i2 as u32)
                    ==> !w.inventory_live(i2),
            hooks@ == old(hooks)@ + ents@.map_values(
                |y: u32| HookEvent::EntityDestroy(EntityId(y)),
            ) + spec_inv_destroy_events(all_invs@.take(k2 as int)),
        decreases m - k2,
    {
        let iid = InventoryId(all_invs[k2]);
        let ghost prev = *w;
        let res = inventory_destroy_x(
            w,
            hooks,
            iid,
            Ghost(Some(cid.0)),
            Ghost(de_all),
            Ghost(None),
            Ghost(None),
        );
        proof {
            assert(res is Ok);
            let ghost ia = prev.inventory_at(iid.0 as int).attachment;
            assert(ia == wo.inventory_at(iid.0 as int).attachment);
            assert(match ia {
                InventoryAttachment::Client(c2) => c2 == cid && !prev.client_live(
                    c2.0 as int,
                ),
                InventoryAttachment::Entity(e2) => de_all.contains(e2.0) && !prev.entity_live(
                    e2.0 as int,
                ),
                _ => false,
            }) by {
                match ia {
                    InventoryAttachment::Entity(e2) => {
                        if de_all.contains(e2.0) {
                            let j = choose|j: int|
                                0 <= j < ents@.len() && ents@[j] == e2.0;
                            assert(contains_prefix(ents@, ents@.len() as int, e2.0));
                        }
                    },
                    _ => {},
                }
            }
            assert(w.clients == prev.clients);
            assert(w.entities == prev.entities);
            let ghost s_drop = prev.inventories.stable_of(iid.0 as int);
            assert forall|s: StableId|
                #![trigger w.inventories.spec_transient_of(s)]
                w.inventories.spec_transient_of(s) == wo.inventories.spec_transient_of(s) || (
                w.inventories.spec_transient_of(s) == None::<u32>
                    && match wo.inventories.spec_transient_of(s) {
                    Some(t) => contains_prefix(all_invs@, k2 as int + 1, t),
                    None => false,
                }) by {
                if s == s_drop && s_drop != crate::types::NO_STABLE_ID {
                    assert(w.inventories.spec_transient_of(s) == None::<u32>);
                    prev.inventories.lemma_stable_lookup(iid.0 as int);
                    assert(prev.inventories.spec_transient_of(s) == Some(iid.0));
                    assert(wo.inventories.spec_transient_of(s) == Some(iid.0));
                    assert(all_invs@[k2 as int] == iid.0);
                    assert(contains_prefix(all_invs@, k2 as int + 1, iid.0));
                } else {
                    assert(w.inventories.spec_transient_of(s)
                        == prev.inventories.spec_transient_of(s)) by {
                        if s == crate::types::NO_STABLE_ID {
                            w.inventories.lemma_transient_of_zero();
                            prev.inventories.lemma_transient_of_zero();
                        }
                    }
                    if prev.inventories.spec_transient_of(s)
                        != wo.inventories.spec_transient_of(s) {
                        match wo.inventories.spec_transient_of(s) {
                            Some(t) => {
                                assert(contains_prefix(all_invs@, k2 as int, t));
                                let j0 = choose|j0: int|
                                    0 <= j0 < k2 as int && all_invs@[j0] == t;
                                assert(0 <= j0 < k2 as int + 1 && all_invs@[j0] == t);
                                assert(contains_prefix(all_invs@, k2 as int + 1, t));
                            },
                            None => {},
                        }
                    }
                }
            }
            assert forall|j: int|
                k2 + 1 <= j < m implies w.inventory_live(all_invs@[j] as int)
                && w.inventory_at(all_invs@[j] as int) == wo.inventory_at(
                all_invs@[j] as int,
            ) by {
                assert(all_invs@[j] != all_invs@[k2 as int]);
            }
            assert(hooks@ =~= old(hooks)@ + ents@.map_values(
                |y: u32| HookEvent::EntityDestroy(EntityId(y)),
            ) + spec_inv_destroy_events(all_invs@.take(k2 as int + 1)));
        }
        k2 += 1;
    }
    proof {
        assert(all_invs@.take(m as int) =~= all_invs@);
        lemma_client_cascade_done(wo, *w, cid.0 as int, ents@, all_invs@);
    }
    proof {
        let clist = wo.client_at(cid.0 as int).child_inventories@;
        assert forall|i2: int|
            0 <= i2 <= u32::MAX && (contains_id(invs_ents, i2 as u32) || contains_id(
                clist,
                i2 as u32,
            )) implies !w.inventory_live(i2) by {
            if contains_id(invs_ents, i2 as u32) {
                let j = choose|j: int| 0 <= j < invs_ents.len() && invs_ents[j] == i2 as u32;
                assert(all_invs@[j] == i2 as u32);
                assert(contains_prefix(all_invs@, m as int, i2 as u32));
            } else {
                let j = choose|j: int| 0 <= j < clist.len() && clist[j] == i2 as u32;
                assert(all_invs@[invs_ents.len() + j] == i2 as u32);
                assert(contains_prefix(all_invs@, m as int, i2 as u32));
            }
        }
        assert(w.clients == wcl);
        assert forall|s: StableId|
            s != wo.clients.stable_of(cid.0 as int) implies #[trigger]
            w.clients.spec_transient_of(s) == wo.clients.spec_transient_of(s) by {}
        assert forall|s: StableId| #[trigger] w.inventories.spec_transient_of(s)
            == wo.inventories.spec_transient_of(s) || (w.inventories.spec_transient_of(s)
            == None::<u32> && match wo.inventories.spec_transient_of(s) {
            Some(t) => contains_id(invs_ents + clist, t),
            None => false,
        }) by {
            if w.inventories.spec_transient_of(s) != wo.inventories.spec_transient_of(s) {
                match wo.inventories.spec_transient_of(s) {
                    Some(t) => {
                        assert(contains_prefix(all_invs@, m as int, t));
                        let j0 = choose|j0: int| 0 <= j0 < m as int && all_invs@[j0] == t;
                        assert((invs_ents + clist)[j0] == t);
                        assert(contains_id(invs_ents + clist, t));
                    },
                    None => {},
                }
            }
        }
    }
    hooks.push(HookEvent::ClientDestroy(cid));
    proof {
        assert(hooks@ =~= old(hooks)@ + wo.client_at(cid.0 as int).child_entities@.map_values(
            |y: u32| HookEvent::EntityDestroy(EntityId(y)),
        ) + spec_inv_destroy_events(
            concat_child_invs(wo, wo.client_at(cid.0 as int).child_entities@) + wo.client_at(
                cid.0 as int,
            ).child_inventories@,
        ).push(HookEvent::ClientDestroy(cid)));
    }
    Ok(())
}

/// After the entity loop of a client cascade: dead children, others intact.
pub open spec fn entities_after_client_cascade(wo: World, wn: World, ents: Seq<u32>) -> bool {
    &&& wn.entities.wf()
    &&& wn.entities.spec_next_stable() == wo.entities.spec_next_stable()
    &&& wn.entities.spec_limit() == wo.entities.spec_limit()
    &&& forall|e2: int|
        #![trigger wn.entity_live(e2)]
        !(0 <= e2 <= u32::MAX) || !contains_id(ents, e2 as u32) ==> {
            &&& wo.entity_live(e2) == wn.entity_live(e2)
            &&& (wo.entity_live(e2) ==> wn.entity_at(e2) == wo.entity_at(e2)
                && wn.entities.stable_of(e2) == wo.entities.stable_of(e2))
        }
    &&& forall|e2: int|
        0 <= e2 <= u32::MAX && contains_id(ents, e2 as u32) ==> !wn.entity_live(e2)
}

/// Removing a client row alone leaves the invariants waived for its
/// dangling children.
proof fn lemma_client_remove_preserves(wo: World, wn: World, c: int)
    requires
        wo.wf(),
        wo.client_live(c),
        0 <= c < 0x10000,
        !wn.client_live(c),
        clients_same_except(wo, wn, c),
        wn.clients.wf(),
        wn.entities == wo.entities,
        wn.inventories == wo.inventories,
        wn.structures == wo.structures,
        wn.terrain_chunks == wo.terrain_chunks,
        wn.structures_by_chunk == wo.structures_by_chunk,
        wn.data == wo.data,
    ensures
        wn.wf_x(Some(c as u16), Set::empty(), None, None),
{
    assert forall|c2: int| #[trigger] wn.client_live(c2) implies wn.wf_client_obj(c2) by {
        assert(c2 != c);
        assert(wo.client_live(c2));
        assert(wo.wf_client_obj(c2));
        assert(wn.client_at(c2) == wo.client_at(c2));
    }
    assert forall|e: int| #[trigger] wn.entity_live(e) implies wn.wf_entity_obj(
        e,
        Some(c as u16),
    ) by {
        assert(wo.entity_live(e));
        assert(wo.wf_entity_obj(e, None));
        match wn.entity_at(e).attachment {
            EntityAttachment::Client(cid) => {
                if cid.0 as int != c {
                    assert(wo.client_live(cid.0 as int));
                    assert(wn.client_at(cid.0 as int) == wo.client_at(cid.0 as int));
                }
            },
            _ => {},
        }
    }
    assert forall|st: int| #[trigger] wn.structure_live(st) implies wn.wf_structure_obj(
        st,
        None,
    ) by {
        assert(wo.structure_live(st));
        assert(wo.wf_structure_obj(st, None));
    }
    assert forall|i: int| #[trigger] wn.inventory_live(i) implies wn.wf_inventory_obj(
        i,
        Some(c as u16),
        Set::empty(),
        None,
    ) by {
        assert(wo.inventory_live(i));
        assert(wo.wf_inventory_obj(i, None, Set::empty(), None));
        match wn.inventory_at(i).attachment {
            InventoryAttachment::Client(cid) => {
                if cid.0 as int != c {
                    assert(wo.client_live(cid.0 as int));
                    assert(wn.client_at(cid.0 as int) == wo.client_at(cid.0 as int));
                }
            },
            _ => {},
        }
    }
    assert forall|cpos: V2| match #[trigger] wn.chunk_at(cpos) {
        Some(tc) => wn.wf_chunk_obj(cpos, tc),
        None => true,
    } by {
        match wn.chunk_at(cpos) {
            Some(tc) => {
                assert(wo.chunk_at(cpos) == Some(tc));
                assert(wo.wf_chunk_obj(cpos, tc));
            },
            None => {},
        }
    }
    lemma_sbc_unchanged(wo, wn);
}

/// Removing one dangling child entity (attachment: the dead client) keeps
/// the waived invariants, widening the dead-entity set.
proof fn lemma_cascade_entity_remove_preserves(
    prev: World,
    wn: World,
    e: int,
    dcid: u16,
    de: Set<u32>,
)
    requires
        prev.wf_x(Some(dcid), de, None, None),
        prev.entity_live(e),
        0 <= e <= u32::MAX,
        prev.entity_at(e).attachment == EntityAttachment::Client(ClientId(dcid)),
        !prev.client_live(dcid as int),
        !wn.entity_live(e),
        entities_same_except(prev, wn, e),
        wn.entities.wf(),
        wn.clients == prev.clients,
        wn.inventories == prev.inventories,
        wn.structures == prev.structures,
        wn.terrain_chunks == prev.terrain_chunks,
        wn.structures_by_chunk == prev.structures_by_chunk,
        wn.data == prev.data,
    ensures
        wn.wf_x(Some(dcid), de.insert(e as u32), None, None),
{
    let de2 = de.insert(e as u32);
    assert forall|c2: int| #[trigger] wn.client_live(c2) implies wn.wf_client_obj(c2) by {
        assert(prev.client_live(c2));
        assert(prev.wf_client_obj(c2));
        let obj = wn.client_at(c2);
        assert(obj == prev.client_at(c2));
        assert forall|j: int| 0 <= j < obj.child_entities@.len() implies wn.entity_live(
            obj.child_entities@[j] as int,
        ) && wn.entity_at(obj.child_entities@[j] as int).attachment == EntityAttachment::Client(
            ClientId(c2 as u16),
        ) by {
            let y = obj.child_entities@[j];
            assert(prev.entity_live(y as int) && prev.entity_at(y as int).attachment
                == EntityAttachment::Client(ClientId(c2 as u16)));
            prev.clients.lemma_live_bounds(c2);
            prev.clients.lemma_len_le_limit();
            assert(y as int != e) by {
                if y as int == e {
                    assert(ClientId(c2 as u16) == ClientId(dcid));
                    assert(prev.client_live(dcid as int));
                }
            }
            assert(wn.entity_at(y as int) == prev.entity_at(y as int));
        }
        match obj.pawn {
            Some(pe) => {
                assert(prev.entity_live(pe.0 as int));
                prev.clients.lemma_live_bounds(c2);
                prev.clients.lemma_len_le_limit();
                assert(pe.0 as int != e) by {
                    if pe.0 as int == e {
                        assert(prev.entity_at(e).attachment == EntityAttachment::Client(
                            ClientId(c2 as u16),
                        ));
                        assert(prev.client_live(dcid as int));
                    }
                }
                assert(wn.entity_at(pe.0 as int) == prev.entity_at(pe.0 as int));
            },
            None => {},
        }
        assert forall|j: int| 0 <= j < obj.child_inventories@.len() implies wn.inventory_live(
            obj.child_inventories@[j] as int,
        ) && wn.inventory_at(obj.child_inventories@[j] as int).attachment
            == InventoryAttachment::Client(ClientId(c2 as u16)) by {
            assert(prev.inventory_live(obj.child_inventories@[j] as int));
        }
    }
    assert forall|e2: int| #[trigger] wn.entity_live(e2) implies wn.wf_entity_obj(
        e2,
        Some(dcid),
    ) by {
        assert(e2 != e);
        assert(prev.entity_live(e2));
        assert(prev.wf_entity_obj(e2, Some(dcid)));
        assert(wn.entity_at(e2) == prev.entity_at(e2));
    }
    assert forall|st: int| #[trigger] wn.structure_live(st) implies wn.wf_structure_obj(
        st,
        None,
    ) by {
        assert(prev.structure_live(st));
        assert(prev.wf_structure_obj(st, None));
    }
    assert forall|i: int| #[trigger] wn.inventory_live(i) implies wn.wf_inventory_obj(
        i,
        Some(dcid),
        de2,
        None,
    ) by {
        assert(prev.inventory_live(i));
        assert(prev.wf_inventory_obj(i, Some(dcid), de, None));
        match wn.inventory_at(i).attachment {
            InventoryAttachment::Entity(eid2) => {
                if eid2.0 as int != e && !de.contains(eid2.0) {
                    assert(prev.entity_live(eid2.0 as int));
                    assert(wn.entity_at(eid2.0 as int) == prev.entity_at(eid2.0 as int));
                }
            },
            _ => {},
        }
    }
    assert forall|cpos: V2| match #[trigger] wn.chunk_at(cpos) {
        Some(tc) => wn.wf_chunk_obj(cpos, tc),
        None => true,
    } by {
        match wn.chunk_at(cpos) {
            Some(tc) => {
                assert(prev.chunk_at(cpos) == Some(tc));
                assert(prev.wf_chunk_obj(cpos, tc));
            },
            None => {},
        }
    }
    lemma_sbc_unchanged(prev, wn);
}

/// The concatenated cascade inventory list is pairwise distinct, and each
/// element is a live inventory attached to the dead client or one of its
/// dead entities.
proof fn lemma_cascade_inv_list_ok(wo: World, c: int, ents: Seq<u32>, all: Seq<u32>)
    requires
        wo.wf(),
        wo.client_live(c),
        0 <= c < 0x10000,
        ents == wo.client_at(c).child_entities@,
        all == concat_child_invs(wo, ents) + wo.client_at(c).child_inventories@,
    ensures
        forall|a: int, b: int| 0 <= a < b < all.len() ==> all[a] != all[b],
        forall|j: int|
            #![trigger all[j]]
            0 <= j < all.len() ==> wo.inventory_live(all[j] as int) && (match wo.inventory_at(
                all[j] as int,
            ).attachment {
                InventoryAttachment::Client(c2) => c2 == ClientId(c as u16),
                InventoryAttachment::Entity(e2) => contains_id(ents, e2.0),
                _ => false,
            }),
{
    assert(wo.wf_client_obj(c));
    lemma_concat_invs_ok(wo, c, ents, ents.len() as int);
    let ci = concat_child_invs(wo, ents);
    assert forall|j: int| 0 <= j < all.len() implies wo.inventory_live(all[j] as int) && (
    match wo.inventory_at(all[j] as int).attachment {
        InventoryAttachment::Client(c2) => c2 == ClientId(c as u16),
        InventoryAttachment::Entity(e2) => contains_id(ents, e2.0),
        _ => false,
    }) by {
        if j < ci.len() {
        } else {
            let y = all[j];
            assert(contains_id(wo.client_at(c).child_inventories@, y)) by {
                assert(wo.client_at(c).child_inventories@[j - ci.len()] == y);
            }
            assert(wo.inventory_live(y as int));
        }
    }
    assert forall|a: int, b: int| 0 <= a < b < all.len() implies all[a] != all[b] by {
        if all[a] == all[b] {
            let att = wo.inventory_at(all[a] as int).attachment;
            if a < ci.len() && b < ci.len() {
                lemma_concat_invs_distinct(wo, c, ents, a, b);
            } else if a < ci.len() && b >= ci.len() {
                assert(match att {
                    InventoryAttachment::Entity(e2) => contains_id(ents, e2.0),
                    _ => false,
                });
                assert(contains_id(wo.client_at(c).child_inventories@, all[b])) by {
                    assert(wo.client_at(c).child_inventories@[b - ci.len()] == all[b]);
                }
                assert(att == InventoryAttachment::Client(ClientId(c as u16)));
            } else {
                let da = a - ci.len();
                let db = b - ci.len();
                crate::idset::lemma_sorted_distinct(
                    wo.client_at(c).child_inventories@,
                    da,
                    db,
                );
            }
        }
    }
}

/// Every element of the concatenation of the first `k` child lists is a
/// live inventory attached to the owning entity, which is a child of `c`.
proof fn lemma_concat_invs_ok(wo: World, c: int, ents: Seq<u32>, k: int)
    requires
        wo.wf(),
        wo.client_live(c),
        0 <= c < 0x10000,
        ents == wo.client_at(c).child_entities@,
        0 <= k <= ents.len(),
    ensures
        forall|j: int|
            #![trigger concat_child_invs(wo, ents.take(k))[j]]
            0 <= j < concat_child_invs(wo, ents.take(k)).len() ==> {
                let y = concat_child_invs(wo, ents.take(k))[j];
                &&& wo.inventory_live(y as int)
                &&& (match wo.inventory_at(y as int).attachment {
                    InventoryAttachment::Entity(e2) => contains_id(ents, e2.0),
                    _ => false,
                })
            },
        k == ents.len() ==> concat_child_invs(wo, ents.take(k)) == concat_child_invs(wo, ents),
    decreases k,
{
    assert(wo.wf_client_obj(c));
    if k == 0 {
        assert(ents.take(0) =~= Seq::<u32>::empty());
    } else {
        lemma_concat_invs_ok(wo, c, ents, k - 1);
        lemma_concat_snoc(wo, ents, k - 1);
        let ek = ents[k - 1];
        assert(wo.entity_live(ek as int));
        assert(wo.wf_entity_obj(ek as int, None));
        assert forall|j: int|
            #![trigger concat_child_invs(wo, ents.take(k))[j]]
            0 <= j < concat_child_invs(wo, ents.take(k)).len() implies {
            let y = concat_child_invs(wo, ents.take(k))[j];
            &&& wo.inventory_live(y as int)
            &&& (match wo.inventory_at(y as int).attachment {
                InventoryAttachment::Entity(e2) => contains_id(ents, e2.0),
                _ => false,
            })
        } by {
            let prefix = concat_child_invs(wo, ents.take(k - 1));
            if j < prefix.len() {
            } else {
                let y = wo.entity_at(ek as int).child_inventories@[j - prefix.len()];
                assert(wo.inventory_live(y as int));
                assert(wo.inventory_at(y as int).attachment == InventoryAttachment::Entity(
                    EntityId(ek),
                ));
                wo.entities.lemma_live_bounds(ek as int);
                assert(contains_id(ents, ek));
            }
        }
    }
    if k == ents.len() {
        assert(ents.take(k) =~= ents);
    }
}

/// Distinctness within the concatenated entity-child lists.
proof fn lemma_concat_invs_distinct(wo: World, c: int, ents: Seq<u32>, a: int, b: int)
    requires
        wo.wf(),
        wo.client_live(c),
        0 <= c < 0x10000,
        ents == wo.client_at(c).child_entities@,
        0 <= a < b < concat_child_invs(wo, ents).len(),
    ensures
        concat_child_invs(wo, ents)[a] != concat_child_invs(wo, ents)[b],
    decreases ents.len(),
{
    assert(wo.wf_client_obj(c));
    lemma_concat_invs_distinct_inner(wo, ents, a, b);
}

/// Inner distinctness: all listed entities are live with sorted child
/// lists, and inventories belong to exactly one entity.
proof fn lemma_concat_invs_distinct_inner(wo: World, ents: Seq<u32>, a: int, b: int)
    requires
        wo.wf(),
        forall|j: int|
            0 <= j < ents.len() ==> wo.entity_live(ents[j] as int) && wo.wf_entity_obj(ents[j] as int, None),
        sorted_unique(ents),
        0 <= a < b < concat_child_invs(wo, ents).len(),
    ensures
        concat_child_invs(wo, ents)[a] != concat_child_invs(wo, ents)[b],
    decreases ents.len(),
{
    if concat_child_invs(wo, ents)[a] != concat_child_invs(wo, ents)[b] {
        return ;
    }
    let first = wo.entity_at(ents[0] as int).child_inventories@;
    let rest = concat_child_invs(wo, ents.drop_first());
    if b < first.len() {
        crate::idset::lemma_sorted_distinct(first, a, b) ;
    } else if a >= first.len() {
        assert forall|j: int|
            0 <= j < ents.drop_first().len() implies wo.entity_live(
            ents.drop_first()[j] as int,
        ) && wo.wf_entity_obj(ents.drop_first()[j] as int, None) by {
            assert(ents.drop_first()[j] == ents[j + 1]);
        }
        lemma_concat_invs_distinct_inner(wo, ents.drop_first(), a - first.len(),
            b - first.len());
    } else {
        let y = concat_child_invs(wo, ents)[a];
        assert(first[a] == y);
        assert(wo.entity_live(ents[0] as int));
        assert(wo.wf_entity_obj(ents[0] as int, None));
        wo.entities.lemma_live_bounds(ents[0] as int);
        assert(wo.inventory_at(y as int).attachment == InventoryAttachment::Entity(
            EntityId(ents[0]),
        ));
        let jb = b - first.len();
        lemma_concat_member_attachment(wo, ents.drop_first(), jb, y);
        let e2 = choose|e2: u32|
            contains_id(ents.drop_first(), e2) && wo.inventory_at(y as int).attachment
                == InventoryAttachment::Entity(EntityId(e2));
        assert(e2 == ents[0]);
        let j2 = choose|j2: int| 0 <= j2 < ents.drop_first().len() && ents.drop_first()[j2] == e2;
        assert(ents[j2 + 1] == ents[0]);
        crate::idset::lemma_sorted_distinct(ents, 0, j2 + 1);
    }
}

/// An element of the concatenation belongs to one of the listed entities.
proof fn lemma_concat_member_attachment(wo: World, ents: Seq<u32>, j: int, y: u32)
    requires
        wo.wf(),
        forall|j2: int|
            0 <= j2 < ents.len() ==> wo.entity_live(ents[j2] as int) && wo.wf_entity_obj(ents[j2] as int, None),
        0 <= j < concat_child_invs(wo, ents).len(),
        concat_child_invs(wo, ents)[j] == y,
    ensures
        exists|e2: u32|
            contains_id(ents, e2) && wo.inventory_at(y as int).attachment
                == InventoryAttachment::Entity(EntityId(e2)),
    decreases ents.len(),
{
    let first = wo.entity_at(ents[0] as int).child_inventories@;
    if j < first.len() {
        assert(wo.wf_entity_obj(ents[0] as int, None));
        wo.entities.lemma_live_bounds(ents[0] as int);
        assert(wo.inventory_at(y as int).attachment == InventoryAttachment::Entity(
            EntityId(ents[0]),
        ));
        assert(contains_id(ents, ents[0]));
    } else {
        assert forall|j2: int|
            0 <= j2 < ents.drop_first().len() implies wo.entity_live(
            ents.drop_first()[j2] as int,
        ) && wo.wf_entity_obj(ents.drop_first()[j2] as int, None) by {
            assert(ents.drop_first()[j2] == ents[j2 + 1]);
        }
        lemma_concat_member_attachment(wo, ents.drop_first(), j - first.len(), y);
        let e2 = choose|e2: u32|
            contains_id(ents.drop_first(), e2) && wo.inventory_at(y as int).attachment
                == InventoryAttachment::Entity(EntityId(e2));
        let j2 = choose|j2: int| 0 <= j2 < ents.drop_first().len() && ents.drop_first()[j2] == e2;
        assert(ents[j2 + 1] == e2);
        assert(contains_id(ents, e2));
    }
}

/// After the whole cascade, no waiver is needed: the world is well-formed.
proof fn lemma_client_cascade_done(wo: World, wn: World, c: int, ents: Seq<u32>, all: Seq<u32>)
    requires
        wo.wf(),
        wo.client_live(c),
        0 <= c < 0x10000,
        ents == wo.client_at(c).child_entities@,
        all == concat_child_invs(wo, ents) + wo.client_at(c).child_inventories@,
        wn.wf_x(Some(c as u16), ents.to_set(), None, None),
        !wn.client_live(c),
        entities_after_client_cascade(wo, wn, ents),
        forall|i2: int|
            #![trigger wn.inventory_live(i2)]
            !(0 <= i2 <= u32::MAX) || !contains_prefix(all, all.len() as int, i2 as u32) ==> {
                &&& wo.inventory_live(i2) == wn.inventory_live(i2)
                &&& (wo.inventory_live(i2) ==> wn.inventory_at(i2) == wo.inventory_at(i2))
            },
        forall|i2: int|
            0 <= i2 <= u32::MAX && contains_prefix(all, all.len() as int, i2 as u32)
                ==> !wn.inventory_live(i2),
    ensures
        wn.wf(),
{
    assert forall|e2: int| #[trigger] wn.entity_live(e2) implies wn.wf_entity_obj(e2, None) by {
        assert(wn.wf_entity_obj(e2, Some(c as u16)));
        match wn.entity_at(e2).attachment {
            EntityAttachment::Client(cid2) => {
                if cid2.0 as int == c {
                    wn.entities.lemma_live_bounds(e2);
                    wn.entities.lemma_len_le_limit();
                    assert(!contains_id(ents, e2 as u32)) by {
                        if contains_id(ents, e2 as u32) {
                            assert(!wn.entity_live(e2));
                        }
                    }
                    assert(wo.entity_live(e2) && wn.entity_at(e2) == wo.entity_at(e2));
                    assert(wo.wf_entity_obj(e2, None));
                    assert(wo.client_live(c));
                    assert(contains_id(wo.client_at(c).child_entities@, e2 as u32));
                    assert(false);
                }
            },
            _ => {},
        }
    }
    assert forall|i2: int| #[trigger] wn.inventory_live(i2) implies wn.wf_inventory_obj(
        i2,
        None,
        Set::empty(),
        None,
    ) by {
        assert(wn.wf_inventory_obj(i2, Some(c as u16), ents.to_set(), None));
        wn.inventories.lemma_live_bounds(i2);
        wn.inventories.lemma_len_le_limit();
        assert(!contains_prefix(all, all.len() as int, i2 as u32));
        assert(wo.inventory_live(i2) && wn.inventory_at(i2) == wo.inventory_at(i2));
        assert(wo.wf_inventory_obj(i2, None, Set::empty(), None));
        match wn.inventory_at(i2).attachment {
            InventoryAttachment::Client(cid) => {
                if cid.0 as int == c {
                    assert(contains_id(wo.client_at(c).child_inventories@, i2 as u32)) by {
                        assert(wo.wf_client_obj(c));
                    }
                    let j = choose|j: int|
                        0 <= j < wo.client_at(c).child_inventories@.len() && wo.client_at(
                            c,
                        ).child_inventories@[j] == i2 as u32;
                    let ci = concat_child_invs(wo, ents);
                    assert(all[ci.len() + j] == i2 as u32);
                    assert(contains_prefix(all, all.len() as int, i2 as u32));
                }
            },
            InventoryAttachment::Entity(eid2) => {
                if ents.to_set().contains(eid2.0) {
                    let je = choose|je: int| 0 <= je < ents.len() && ents[je] == eid2.0;
                    assert(wo.entity_live(eid2.0 as int)) by {
                        assert(wo.wf_client_obj(c));
                    }
                    assert(wo.wf_entity_obj(eid2.0 as int, None));
                    assert(contains_id(wo.entity_at(eid2.0 as int).child_inventories@,
                        i2 as u32));
                    let ji = choose|ji: int|
                        0 <= ji < wo.entity_at(eid2.0 as int).child_inventories@.len()
                            && wo.entity_at(eid2.0 as int).child_inventories@[ji] == i2 as u32;
                    lemma_concat_snoc(wo, ents, je);
                    assert(ents.take(ents.len() as int) =~= ents);
                    let base = concat_child_invs(wo, ents.take(je)).len() as int;
                    let clist = wo.entity_at(eid2.0 as int).child_inventories@;
                    let combined = concat_child_invs(wo, ents.take(je + 1));
                    assert(combined == concat_child_invs(wo, ents.take(je)) + clist);
                    assert(combined.len() == base + clist.len());
                    assert(combined[base + ji] == clist[ji]);
                    lemma_concat_take_prefix(wo, ents, je + 1, base + ji);
                    let full = concat_child_invs(wo, ents);
                    assert(base + ji < full.len());
                    assert(full[base + ji] == i2 as u32);
                    assert(all[base + ji] == full[base + ji]);
                    assert(all[base + ji] == i2 as u32);
                    assert(contains_prefix(all, all.len() as int, i2 as u32));
                }
            },
            _ => {},
        }
    }
    assert(wn.wf());
}

/// Prefix concatenations are prefixes of the full concatenation.
proof fn lemma_concat_take_prefix(wo: World, ents: Seq<u32>, k: int, idx: int)
    requires
        0 <= k <= ents.len(),
        0 <= idx < concat_child_invs(wo, ents.take(k)).len(),
    ensures
        idx < concat_child_invs(wo, ents).len(),
        concat_child_invs(wo, ents)[idx] == concat_child_invs(wo, ents.take(k))[idx],
    decreases ents.len() - k,
{
    if k == ents.len() {
        assert(ents.take(k) =~= ents);
    } else {
        lemma_concat_snoc(wo, ents, k);
        lemma_concat_take_prefix(wo, ents, k + 1, idx);
    }
}

/// Helper: nothing, beyond naming the length of a prefix concatenation.
proof fn lemma_concat_prefix_len(wo: World, ents: Seq<u32>, k: int)
    requires
        0 <= k < ents.len(),
    ensures
        concat_child_invs(wo, ents.take(k + 1)).len() == concat_child_invs(wo, ents.take(k)).len()
            + wo.entity_at(ents[k] as int).child_inventories@.len(),
{
    lemma_concat_snoc(wo, ents, k);
}


// ------------------------------------------------------------------
// structure / chunk destroy

/// Removes `sid` from the index lists of every chunk its box touches.
fn structure_remove_from_lookup(w: &mut World, sid: u32, bounds: Region)
    requires
        old(w).terrain_chunks.wf(),
        old(w).structures_by_chunk.wf(),
        old(w).wf_sbc_sorted(),
        -COORD_LIMIT <= bounds.min.x,
        -COORD_LIMIT <= bounds.min.y,
        bounds.min.x <= bounds.max.x <= COORD_LIMIT + TEMPLATE_SIZE_LIMIT,
        bounds.min.y <= bounds.max.y <= COORD_LIMIT + TEMPLATE_SIZE_LIMIT,
    ensures
        final(w).structures_by_chunk.wf(),
        final(w).wf_sbc_sorted(),
        forall|cpos: V2, sid2: u32| #[trigger]
            final(w).sbc_has(cpos, sid2) == (old(w).sbc_has(cpos, sid2) && !(sid2 == sid
                && spec_chunk_range(bounds).contains(cpos))),
        final(w).clients == old(w).clients,
        final(w).entities == old(w).entities,
        final(w).structures == old(w).structures,
        final(w).inventories == old(w).inventories,
        final(w).terrain_chunks == old(w).terrain_chunks,
        final(w).data == old(w).data,
{
    let cr = chunk_range(bounds);
    proof {
        vstd::arithmetic::div_mod::lemma_div_is_ordered(
            bounds.min.x as int,
            bounds.max.x + CHUNK_SIZE - 1,
            CHUNK_SIZE as int,
        );
        vstd::arithmetic::div_mod::lemma_div_is_ordered(
            bounds.min.y as int,
            bounds.max.y + CHUNK_SIZE - 1,
            CHUNK_SIZE as int,
        );
        crate::geom::lemma_div_in_i32_range(bounds.min.x as int, CHUNK_SIZE as int);
        crate::geom::lemma_div_in_i32_range(bounds.min.y as int, CHUNK_SIZE as int);
        crate::geom::lemma_div_in_i32_range(
            (bounds.max.x + CHUNK_SIZE - 1) as int,
            CHUNK_SIZE as int,
        );
        crate::geom::lemma_div_in_i32_range(
            (bounds.max.y + CHUNK_SIZE - 1) as int,
            CHUNK_SIZE as int,
        );
    }
    let mut cy = cr.min.y;
    while cy < cr.max.y
        invariant
            cr == spec_chunk_range(bounds),
            cr.min.x <= cr.max.x,
            cr.min.y <= cr.max.y,
            w.structures_by_chunk.wf(),
            w.wf_sbc_sorted(),
            cr.min.y <= cy <= cr.max.y,
            forall|cpos: V2, sid2: u32| #[trigger]
                w.sbc_has(cpos, sid2) == (old(w).sbc_has(cpos, sid2) && !(sid2 == sid
                    && cr.contains(cpos) && cpos.y < cy)),
            w.clients == old(w).clients,
            w.entities == old(w).entities,
            w.structures == old(w).structures,
            w.inventories == old(w).inventories,
            w.terrain_chunks == old(w).terrain_chunks,
            w.data == old(w).data,
        decreases cr.max.y - cy,
    {
        let mut cx = cr.min.x;
        while cx < cr.max.x
            invariant
                cr == spec_chunk_range(bounds),
                cr.min.x <= cr.max.x,
                cr.min.y <= cr.max.y,
                w.structures_by_chunk.wf(),
                w.wf_sbc_sorted(),
                cr.min.y <= cy < cr.max.y,
                cr.min.x <= cx <= cr.max.x,
                forall|cpos: V2, sid2: u32| #[trigger]
                    w.sbc_has(cpos, sid2) == (old(w).sbc_has(cpos, sid2) && !(sid2 == sid
                        && cr.contains(cpos) && (cpos.y < cy || (cpos.y == cy && cpos.x
                        < cx)))),
                w.clients == old(w).clients,
                w.entities == old(w).entities,
                w.structures == old(w).structures,
                w.inventories == old(w).inventories,
                w.terrain_chunks == old(w).terrain_chunks,
                w.data == old(w).data,
            decreases cr.max.x - cx,
        {
            let cpos = V2 { x: cx, y: cy };
            let ghost prev = *w;
            let taken = w.structures_by_chunk.take(pack_v2(cpos));
            let ghost prev_list: Seq<u32> = match taken {
                Some(ref l0) => l0@,
                None => Seq::empty(),
            };
            proof {
                assert(prev.wf_sbc_sorted());
                assert(match prev.structures_by_chunk.spec_get(spec_pack_v2(cpos)) {
                    Some(l0) => sorted_unique(l0@),
                    None => true,
                });
                assert(forall|y: u32| #[trigger]
                    contains_id(prev_list, y) == prev.sbc_has(cpos, y));
            }
            let mut l: Vec<u32> = match taken {
                Some(l0) => l0,
                None => Vec::new(),
            };
            proof {
                assert(l@ == prev_list);
                assert(sorted_unique(l@));
            }
            idset_remove(&mut l, sid);
            let ghost lsnap = l@;
            w.structures_by_chunk.insert(pack_v2(cpos), l);
            proof {
                assert(w.structures_by_chunk.spec_get(spec_pack_v2(cpos)) is Some);
                assert(w.structures_by_chunk.spec_get(spec_pack_v2(cpos))->Some_0@ == lsnap);
                assert forall|c2: V2, sid2: u32| #[trigger]
                    w.sbc_has(c2, sid2) == (old(w).sbc_has(c2, sid2) && !(sid2 == sid
                        && cr.contains(c2) && (c2.y < cy || (c2.y == cy && c2.x < cx
                        + 1)))) by {
                    if spec_pack_v2(c2) == spec_pack_v2(cpos) {
                        lemma_pack_v2_injective(c2, cpos);
                        assert(w.sbc_has(c2, sid2) == contains_id(lsnap, sid2));
                        assert(contains_id(lsnap, sid2) == (contains_id(prev_list, sid2)
                            && sid2 != sid));
                        assert(contains_id(prev_list, sid2) == prev.sbc_has(cpos, sid2));
                        assert(cr.contains(cpos));
                    } else {
                        assert(w.structures_by_chunk.spec_get(spec_pack_v2(c2))
                            == prev.structures_by_chunk.spec_get(spec_pack_v2(c2)));
                        assert(w.sbc_has(c2, sid2) == prev.sbc_has(c2, sid2));
                        assert(c2 != cpos);
                    }
                }
                assert forall|c2: V2| match #[trigger] w.structures_by_chunk.spec_get(
                    spec_pack_v2(c2),
                ) {
                    Some(l2) => sorted_unique(l2@),
                    None => true,
                } by {
                    if spec_pack_v2(c2) == spec_pack_v2(cpos) {
                        assert(sorted_unique(lsnap));
                    } else {
                        assert(w.structures_by_chunk.spec_get(spec_pack_v2(c2))
                            == prev.structures_by_chunk.spec_get(spec_pack_v2(c2)));
                        assert(match prev.structures_by_chunk.spec_get(spec_pack_v2(c2)) {
                            Some(l2) => sorted_unique(l2@),
                            None => true,
                        });
                    }
                }
            }
            cx += 1;
        }
        cy += 1;
    }
}

/// The hook events of one structure destroy: invalidation of its chunks,
/// its child inventories, then the structure itself.
pub open spec fn structure_destroy_events(wo: World, sid: int, bounds: Region) -> Seq<HookEvent> {
    spec_invalidate_events(spec_chunk_range(bounds)) + spec_inv_destroy_events(
        wo.structure_at(sid).child_inventories@,
    ).push(HookEvent::StructureDestroy(StructureId(sid as u32), bounds))
}

/// Removes structure `sid`, its index entries and child inventories; fires
/// chunk invalidations, the inventory destroys, then the structure destroy.
/// `dtc` names a chunk that is itself being torn down.
fn structure_destroy_x(
    w: &mut World,
    hooks: &mut Vec<HookEvent>,
    sid: StructureId,
    Ghost(dtc): Ghost<Option<V2>>,
) -> (r: OpResult<()>)
    requires
        old(w).wf_x(None, Set::empty(), None, dtc),
    ensures
        final(w).wf_x(None, Set::empty(), None, dtc),
        match r {
            Ok(()) => {
                &&& old(w).structure_live(sid.0 as int)
                &&& !final(w).structure_live(sid.0 as int)
                &&& structures_same_except(*old(w), *final(w), sid.0 as int)
                &&& (old(w).structures.stable_of(sid.0 as int) != crate::types::NO_STABLE_ID
                    ==> final(w).structures.spec_transient_of(
                    old(w).structures.stable_of(sid.0 as int),
                ) == None::<u32>)
                &&& (forall|s: StableId|
                    s != old(w).structures.stable_of(sid.0 as int) ==> #[trigger] final(w).structures.spec_transient_of(s) == old(w).structures.spec_transient_of(
                        s,
                    ))
                &&& (forall|s: StableId| #[trigger]
                    final(w).inventories.spec_transient_of(s) == old(w).inventories.spec_transient_of(s) || (final(w).inventories.spec_transient_of(
                        s,
                    ) == None::<u32> && match old(w).inventories.spec_transient_of(s) {
                        Some(t) => contains_id(
                            old(w).structure_at(sid.0 as int).child_inventories@,
                            t,
                        ),
                        None => false,
                    }))
                &&& final(w).clients == old(w).clients
                &&& final(w).entities == old(w).entities
                &&& final(w).data == old(w).data
                &&& (forall|cpos: V2, sid2: u32| #[trigger]
                    final(w).sbc_has(cpos, sid2) == (old(w).sbc_has(cpos, sid2) && sid2
                        != sid.0))
                &&& (forall|i2: int|
                    #![trigger final(w).inventory_live(i2)]
                    !(0 <= i2 <= u32::MAX) || !contains_id(
                        old(w).structure_at(sid.0 as int).child_inventories@,
                        i2 as u32,
                    ) ==> old(w).inventory_live(i2) == final(w).inventory_live(i2) && (old(w).inventory_live(i2) ==> final(w).inventory_at(i2) == old(w).inventory_at(
                        i2,
                    )))
                &&& (forall|i2: int|
                    0 <= i2 <= u32::MAX && contains_id(
                        old(w).structure_at(sid.0 as int).child_inventories@,
                        i2 as u32,
                    ) ==> !final(w).inventory_live(i2))
                &&& (forall|c2: V2|
                    c2 != spec_chunk_of(
                        V2 {
                            x: old(w).structure_at(sid.0 as int).pos.x,
                            y: old(w).structure_at(sid.0 as int).pos.y,
                        },
                    ) ==> #[trigger] final(w).chunk_at(c2) == old(w).chunk_at(c2))
                &&& (old(w).chunk_at(
                    spec_chunk_of(
                        V2 {
                            x: old(w).structure_at(sid.0 as int).pos.x,
                            y: old(w).structure_at(sid.0 as int).pos.y,
                        },
                    ),
                ) is None ==> final(w).chunk_at(
                    spec_chunk_of(
                        V2 {
                            x: old(w).structure_at(sid.0 as int).pos.x,
                            y: old(w).structure_at(sid.0 as int).pos.y,
                        },
                    ),
                ) is None)
                &&& (old(w).structure_at(sid.0 as int).attachment is World ==> final(w).terrain_chunks == old(w).terrain_chunks)
                &&& final(hooks)@ == old(hooks)@ + structure_destroy_events(
                    *old(w),
                    sid.0 as int,
                    old(w).s_bounds(sid.0 as int),
                )
            },
            Err(_) => {
                &&& *final(w) == *old(w)
                &&& final(hooks)@ == old(hooks)@
                &&& !old(w).structure_live(sid.0 as int)
            },
        },
{
    let ghost wo = *old(w);
    let (pos, tid, attachment) = match w.structures.get(sid.0) {
        Some(st) => (st.pos, st.template, st.attachment),
        None => {
            return Err("no structure with given id");
        },
    };
    proof {
        assert(wo.structure_live(sid.0 as int));
        assert(wo.wf_structure_obj(sid.0 as int, dtc));
    }
    let tpl = match w.data.get_template(tid) {
        Some(t) => *t,
        None => {
            proof {
                assert(false);
            }
            return Err("broken invariant");
        },
    };
    let bounds = Region {
        min: pos,
        max: V3 { x: pos.x + tpl.size.x, y: pos.y + tpl.size.y, z: pos.z + tpl.size.z },
    };
    proof {
        assert(bounds == wo.s_bounds(sid.0 as int));
    }
    structure_remove_from_lookup(w, sid.0, bounds);
    let ghost wlk = *w;
    let st = match w.structures.remove(sid.0) {
        Some(st) => st,
        None => {
            proof {
                assert(false);
            }
            return Err("broken invariant");
        },
    };
    let ghost wst = w.structures;
    match attachment {
        StructureAttachment::World => {},
        StructureAttachment::Chunk => {
            let cpos = chunk_of(V2 { x: pos.x, y: pos.y });
            let ghost prevw = *w;
            match w.terrain_chunks.take(pack_v2(cpos)) {
                Some(mut tc) => {
                    proof {
                        assert(prevw.chunk_at(cpos) == Some(tc));
                        assert(wo.chunk_at(cpos) == Some(tc));
                        assert(wo.wf_chunk_obj(cpos, tc));
                    }
                    idset_remove(&mut tc.child_structures, sid.0);
                    w.terrain_chunks.insert(pack_v2(cpos), tc);
                    proof {
                        assert forall|c2: V2| c2 != cpos implies #[trigger] w.chunk_at(c2)
                            == wo.chunk_at(c2) by {
                            if spec_pack_v2(c2) == spec_pack_v2(cpos) {
                                lemma_pack_v2_injective(c2, cpos);
                            }
                        }
                    }
                },
                None => {
                    proof {
                        assert(Some(spec_chunk_of(V2 { x: pos.x, y: pos.y })) == dtc);
                    }
                },
            }
        },
    }
    proof {
        assert(w.structures_by_chunk == wlk.structures_by_chunk);
        assert forall|cpos2: V2, sid2: u32| #[trigger]
            w.sbc_has(cpos2, sid2) == (wo.sbc_has(cpos2, sid2) && !(sid2 == sid.0
                && spec_chunk_range(bounds).contains(cpos2))) by {
            assert(w.sbc_has(cpos2, sid2) == wlk.sbc_has(cpos2, sid2));
        }
        assert(w.wf_sbc_sorted()) by {
            assert forall|cpos2: V2| match #[trigger] w.structures_by_chunk.spec_get(
                spec_pack_v2(cpos2),
            ) {
                Some(l) => sorted_unique(l@),
                None => true,
            } by {
                assert(w.structures_by_chunk.spec_get(spec_pack_v2(cpos2))
                    == wlk.structures_by_chunk.spec_get(spec_pack_v2(cpos2)));
                assert(match wlk.structures_by_chunk.spec_get(spec_pack_v2(cpos2)) {
                    Some(l) => sorted_unique(l@),
                    None => true,
                });
            }
        }
        lemma_structure_remove_preserves(wo, *w, sid.0 as int, bounds, attachment, dtc);
    }
    invalidate_region(hooks, bounds);
    let ghost wmid = *w;
    let children = st.child_inventories;
    let n = children.len();
    let mut k: usize = 0;
    while k < n
        invariant
            w.wf_x(None, Set::empty(), Some(sid.0), dtc),
            wo.wf_x(None, Set::empty(), None, dtc),
            wo.structure_live(sid.0 as int),
            children@ == wo.structure_at(sid.0 as int).child_inventories@,
            n == children@.len(),
            0 <= k <= n,
            sorted_unique(children@),
            !w.structure_live(sid.0 as int),
            structures_same_except(wo, *w, sid.0 as int),
            w.clients == wo.clients,
            w.entities == wo.entities,
            w.terrain_chunks == wmid.terrain_chunks,
            w.structures_by_chunk == wmid.structures_by_chunk,
            w.structures == wmid.structures,
            w.data == wo.data,
            w.inventories.spec_next_stable() == wo.inventories.spec_next_stable(),
            w.inventories.spec_limit() == wo.inventories.spec_limit(),
            forall|j: int|
                k <= j < n ==> w.inventory_live(children@[j] as int) && w.inventory_at(
                    children@[j] as int,
                ).attachment == InventoryAttachment::Structure(sid),
            forall|i2: int|
                #![trigger wo.inventory_live(i2)]
                #![trigger w.inventory_live(i2)]
                !(0 <= i2 <= u32::MAX) || !contains_prefix(children@, k as int, i2 as u32)
                    ==> {
                    &&& wo.inventory_live(i2) == w.inventory_live(i2)
                    &&& (wo.inventory_live(i2) ==> w.inventory_at(i2) == wo.inventory_at(i2)
                        && w.inventories.stable_of(i2) == wo.inventories.stable_of(i2))
                },
            forall|i2: int|
                0 <= i2 <= u32::MAX && contains_prefix(children@, k as int, i2 as u32)
                    ==> !w.inventory_live(i2),
            forall|s: StableId|
                #![trigger w.inventories.spec_transient_of(s)]
                w.inventories.spec_transient_of(s) == wo.inventories.spec_transient_of(s) || (
                w.inventories.spec_transient_of(s) == None::<u32>
                    && match wo.inventories.spec_transient_of(s) {
                    Some(t) => contains_prefix(children@, k as int, t),
                    None => false,
                }),
            hooks@ == old(hooks)@ + spec_invalidate_events(spec_chunk_range(bounds))
                + spec_inv_destroy_events(children@.take(k as int)),
        decreases n - k,
    {
        let iid = InventoryId(children[k]);
        let ghost prev = *w;
        let res = inventory_destroy_x(
            w,
            hooks,
            iid,
            Ghost(None),
            Ghost(Set::empty()),
            Ghost(Some(sid.0)),
            Ghost(dtc),
        );
        proof {
            assert(res is Ok);
            assert(prev.inventory_at(iid.0 as int).attachment == InventoryAttachment::Structure(
                sid,
            ));
            assert(!prev.structure_live(sid.0 as int));
            let ghost s_drop = prev.inventories.stable_of(iid.0 as int);
            assert forall|s: StableId|
                #![trigger w.inventories.spec_transient_of(s)]
                w.inventories.spec_transient_of(s) == wo.inventories.spec_transient_of(s) || (
                w.inventories.spec_transient_of(s) == None::<u32>
                    && match wo.inventories.spec_transient_of(s) {
                    Some(t) => contains_prefix(children@, k as int + 1, t),
                    None => false,
                }) by {
                if s == s_drop && s_drop != crate::types::NO_STABLE_ID {
                    assert(w.inventories.spec_transient_of(s) == None::<u32>);
                    prev.inventories.lemma_stable_lookup(iid.0 as int);
                    assert(prev.inventories.spec_transient_of(s) == Some(iid.0));
                    assert(wo.inventories.spec_transient_of(s) == Some(iid.0));
                    assert(children@[k as int] == iid.0);
                    assert(contains_prefix(children@, k as int + 1, iid.0));
                } else {
                    assert(w.inventories.spec_transient_of(s)
                        == prev.inventories.spec_transient_of(s)) by {
                        if s == crate::types::NO_STABLE_ID {
                            w.inventories.lemma_transient_of_zero();
                            prev.inventories.lemma_transient_of_zero();
                        }
                    }
                    if prev.inventories.spec_transient_of(s)
                        != wo.inventories.spec_transient_of(s) {
                        match wo.inventories.spec_transient_of(s) {
                            Some(t) => {
                                assert(contains_prefix(children@, k as int, t));
                                let j0 = choose|j0: int|
                                    0 <= j0 < k as int && children@[j0] == t;
                                assert(0 <= j0 < k as int + 1 && children@[j0] == t);
                                assert(contains_prefix(children@, k as int + 1, t));
                            },
                            None => {},
                        }
                    }
                }
            }
            assert forall|j: int|
                k + 1 <= j < n implies w.inventory_live(children@[j] as int) && w.inventory_at(
                children@[j] as int,
            ).attachment == InventoryAttachment::Structure(sid) by {
                crate::idset::lemma_sorted_distinct(children@, j, k as int);
            }
            assert(hooks@ =~= old(hooks)@ + spec_invalidate_events(spec_chunk_range(bounds))
                + spec_inv_destroy_events(children@.take(k as int + 1)));
        }
        k += 1;
    }
    proof {
        assert(children@.take(n as int) =~= children@);
        assert forall|i2: int| #[trigger] w.inventory_live(i2) implies w.wf_inventory_obj(
            i2,
            None,
            Set::empty(),
            None,
        ) by {
            assert(w.wf_inventory_obj(i2, None, Set::empty(), Some(sid.0)));
            match w.inventory_at(i2).attachment {
                InventoryAttachment::Structure(sid2) => {
                    if Some(sid2.0) == Some(sid.0) {
                        w.inventories.lemma_live_bounds(i2);
                        w.inventories.lemma_len_le_limit();
                        if contains_prefix(children@, n as int, i2 as u32) {
                            assert(!w.inventory_live(i2));
                        } else {
                            assert(wo.inventory_live(i2) && wo.inventory_at(i2)
                                == w.inventory_at(i2));
                            assert(wo.wf_inventory_obj(i2, None, Set::empty(), None));
                            assert(contains_id(
                                wo.structure_at(sid.0 as int).child_inventories@,
                                i2 as u32,
                            ));
                            assert(contains_prefix(children@, n as int, i2 as u32));
                        }
                        assert(false);
                    }
                },
                _ => {},
            }
        }
        assert(w.wf_x(None, Set::empty(), None, dtc));
        assert(w.structures == wst);
        assert forall|s: StableId|
            s != wo.structures.stable_of(sid.0 as int) implies #[trigger]
            w.structures.spec_transient_of(s) == wo.structures.spec_transient_of(s) by {}
        assert forall|s: StableId| #[trigger] w.inventories.spec_transient_of(s)
            == wo.inventories.spec_transient_of(s) || (w.inventories.spec_transient_of(s)
            == None::<u32> && match wo.inventories.spec_transient_of(s) {
            Some(t) => contains_id(wo.structure_at(sid.0 as int).child_inventories@, t),
            None => false,
        }) by {
            if w.inventories.spec_transient_of(s) != wo.inventories.spec_transient_of(s) {
                match wo.inventories.spec_transient_of(s) {
                    Some(t) => {
                        assert(contains_prefix(children@, n as int, t));
                        let j0 = choose|j0: int| 0 <= j0 < n as int && children@[j0] == t;
                        assert(contains_id(children@, t));
                    },
                    None => {},
                }
            }
        }
        assert(w.terrain_chunks == wmid.terrain_chunks);
        let ghost cpos0 = spec_chunk_of(
            V2 { x: wo.structure_at(sid.0 as int).pos.x, y: wo.structure_at(sid.0 as int).pos.y },
        );
        assert forall|c2: V2| c2 != cpos0 implies #[trigger] w.chunk_at(c2) == wo.chunk_at(
            c2,
        ) by {
            assert(w.chunk_at(c2) == wmid.chunk_at(c2));
        }
        assert(w.chunk_at(cpos0) == wmid.chunk_at(cpos0));
    }
    hooks.push(HookEvent::StructureDestroy(sid, bounds));
    proof {
        assert(hooks@ =~= old(hooks)@ + structure_destroy_events(wo, sid.0 as int, bounds));
    }
    Ok(())
}

/// Removes structure `sid` with its cascade; fires invalidations, child
/// inventory destroys, then the structure destroy hook.
pub fn structure_destroy(w: &mut World, hooks: &mut Vec<HookEvent>, sid: StructureId) -> (r:
    OpResult<()>)
    requires
        old(w).wf(),
    ensures
        final(w).wf(),
        match r {
            Ok(()) => {
                &&& old(w).structure_live(sid.0 as int)
                &&& !final(w).structure_live(sid.0 as int)
                &&& structures_same_except(*old(w), *final(w), sid.0 as int)
                &&& (forall|cpos: V2, sid2: u32| #[trigger]
                    final(w).sbc_has(cpos, sid2) == (old(w).sbc_has(cpos, sid2) && sid2
                        != sid.0))
                &&& (forall|i2: int|
                    #![trigger final(w).inventory_live(i2)]
                    !(0 <= i2 <= u32::MAX) || !contains_id(
                        old(w).structure_at(sid.0 as int).child_inventories@,
                        i2 as u32,
                    ) ==> old(w).inventory_live(i2) == final(w).inventory_live(i2) && (old(w).inventory_live(i2) ==> final(w).inventory_at(i2) == old(w).inventory_at(
                        i2,
                    )))
                &&& (forall|i2: int|
                    0 <= i2 <= u32::MAX && contains_id(
                        old(w).structure_at(sid.0 as int).child_inventories@,
                        i2 as u32,
                    ) ==> !final(w).inventory_live(i2))
                &&& (old(w).structures.stable_of(sid.0 as int) != crate::types::NO_STABLE_ID
                    ==> final(w).structures.spec_transient_of(
                    old(w).structures.stable_of(sid.0 as int),
                ) == None::<u32>)
                &&& (forall|s: StableId|
                    s != old(w).structures.stable_of(sid.0 as int) ==> #[trigger] final(w).structures.spec_transient_of(s) == old(w).structures.spec_transient_of(
                        s,
                    ))
                &&& (forall|s: StableId| #[trigger]
                    final(w).inventories.spec_transient_of(s) == old(w).inventories.spec_transient_of(s) || (final(w).inventories.spec_transient_of(
                        s,
                    ) == None::<u32> && match old(w).inventories.spec_transient_of(s) {
                        Some(t) => contains_id(
                            old(w).structure_at(sid.0 as int).child_inventories@,
                            t,
                        ),
                        None => false,
                    }))
                &&& final(w).clients == old(w).clients
                &&& final(w).entities == old(w).entities
                &&& final(w).data == old(w).data
                &&& final(hooks)@ == old(hooks)@ + structure_destroy_events(
                    *old(w),
                    sid.0 as int,
                    old(w).s_bounds(sid.0 as int),
                )
            },
            Err(_) => {
                &&& *final(w) == *old(w)
                &&& final(hooks)@ == old(hooks)@
                &&& !old(w).structure_live(sid.0 as int)
            },
        },
{
    structure_destroy_x(w, hooks, sid, Ghost(None))
}

/// After removing the structure row, its index entries and its chunk-list
/// entry, the invariants hold with its child inventories waived.
proof fn lemma_structure_remove_preserves(
    wo: World,
    wn: World,
    s: int,
    bounds: Region,
    oa: StructureAttachment,
    dtc: Option<V2>,
)
    requires
        wo.wf_x(None, Set::empty(), None, dtc),
        wo.structure_live(s),
        0 <= s <= u32::MAX,
        bounds == wo.s_bounds(s),
        oa == wo.structure_at(s).attachment,
        !wn.structure_live(s),
        structures_same_except(wo, wn, s),
        wn.structures.wf(),
        wn.terrain_chunks.wf(),
        wn.structures_by_chunk.wf(),
        wn.wf_sbc_sorted(),
        forall|cpos: V2, sid2: u32| #[trigger]
            wn.sbc_has(cpos, sid2) == (wo.sbc_has(cpos, sid2) && !(sid2 == s as u32
                && spec_chunk_range(bounds).contains(cpos))),
        wn.clients == wo.clients,
        wn.entities == wo.entities,
        wn.inventories == wo.inventories,
        wn.data == wo.data,
        // chunk-list update
        (oa is Chunk ==> {
            let cpos = spec_chunk_of(V2 { x: wo.structure_at(s).pos.x, y: wo.structure_at(s).pos.y });
            &&& (forall|c2: V2| c2 != cpos ==> #[trigger] wn.chunk_at(c2) == wo.chunk_at(c2))
            &&& (match wo.chunk_at(cpos) {
                Some(tc) => match wn.chunk_at(cpos) {
                    Some(tc2) => tc2.blocks == tc.blocks && sorted_unique(tc2.child_structures@)
                        && (forall|y: u32| #[trigger]
                        contains_id(tc2.child_structures@, y) == (contains_id(
                            tc.child_structures@,
                            y,
                        ) && y != s as u32)),
                    None => false,
                },
                None => Some(cpos) == dtc && wn.chunk_at(cpos) is None,
            })
        }),
        (oa is World ==> wn.terrain_chunks == wo.terrain_chunks),
    ensures
        wn.wf_x(None, Set::empty(), Some(s as u32), dtc),
{
    let ghost cpos0 = spec_chunk_of(V2 { x: wo.structure_at(s).pos.x, y: wo.structure_at(s).pos.y });
    assert forall|c: int| #[trigger] wn.client_live(c) implies wn.wf_client_obj(c) by {
        assert(wo.client_live(c));
        assert(wo.wf_client_obj(c));
        assert(wn.client_at(c) == wo.client_at(c));
    }
    assert forall|e: int| #[trigger] wn.entity_live(e) implies wn.wf_entity_obj(e, None) by {
        assert(wo.entity_live(e));
        assert(wo.wf_entity_obj(e, None));
    }
    assert forall|st: int| #[trigger] wn.structure_live(st) implies wn.wf_structure_obj(
        st,
        dtc,
    ) by {
        assert(st != s);
        assert(wo.structure_live(st));
        assert(wo.wf_structure_obj(st, dtc));
        assert(wn.structure_at(st) == wo.structure_at(st));
        match wn.structure_at(st).attachment {
            StructureAttachment::Chunk => {
                let cp = spec_chunk_of(
                    V2 { x: wn.structure_at(st).pos.x, y: wn.structure_at(st).pos.y },
                );
                if Some(cp) != dtc {
                    assert(match wo.chunk_at(cp) {
                        Some(tc) => contains_id(tc.child_structures@, st as u32),
                        None => false,
                    });
                    wo.structures.lemma_live_bounds(st);
                    wo.structures.lemma_len_le_limit();
                    if oa is Chunk && cp == cpos0 {
                        assert(match wn.chunk_at(cp) {
                            Some(tc2) => contains_id(tc2.child_structures@, st as u32),
                            None => false,
                        });
                    } else {
                        assert(wn.chunk_at(cp) == wo.chunk_at(cp));
                    }
                }
            },
            _ => {},
        }
    }
    assert forall|i: int| #[trigger] wn.inventory_live(i) implies wn.wf_inventory_obj(
        i,
        None,
        Set::empty(),
        Some(s as u32),
    ) by {
        assert(wo.inventory_live(i));
        assert(wo.wf_inventory_obj(i, None, Set::empty(), None));
        match wn.inventory_at(i).attachment {
            InventoryAttachment::Structure(sid2) => {
                if sid2.0 as int != s {
                    assert(wo.structure_live(sid2.0 as int));
                    assert(wn.structure_at(sid2.0 as int) == wo.structure_at(sid2.0 as int));
                }
            },
            _ => {},
        }
    }
    assert forall|cpos: V2| match #[trigger] wn.chunk_at(cpos) {
        Some(tc) => wn.wf_chunk_obj(cpos, tc),
        None => true,
    } by {
        match wn.chunk_at(cpos) {
            Some(tc2) => {
                if oa is Chunk && cpos == cpos0 && wo.chunk_at(cpos) is Some {
                    let tc = wo.chunk_at(cpos)->Some_0;
                    assert(wo.wf_chunk_obj(cpos, tc));
                    assert(tc2.blocks == tc.blocks);
                    assert forall|j: int| 0 <= j < tc2.child_structures@.len() implies
                        wn.structure_live(tc2.child_structures@[j] as int) && wn.structure_at(
                        tc2.child_structures@[j] as int,
                    ).attachment == StructureAttachment::Chunk && spec_chunk_of(
                        V2 {
                            x: wn.structure_at(tc2.child_structures@[j] as int).pos.x,
                            y: wn.structure_at(tc2.child_structures@[j] as int).pos.y,
                        },
                    ) == cpos by {
                        let y = tc2.child_structures@[j];
                        assert(contains_id(tc2.child_structures@, y));
                        assert(contains_id(tc.child_structures@, y) && y != s as u32);
                        let j0 = choose|j0: int|
                            0 <= j0 < tc.child_structures@.len() && tc.child_structures@[j0]
                                == y;
                        assert(wo.structure_live(tc.child_structures@[j0] as int));
                        assert(wn.structure_at(y as int) == wo.structure_at(y as int));
                    }
                } else {
                    assert(wn.chunk_at(cpos) == wo.chunk_at(cpos));
                    assert(wo.wf_chunk_obj(cpos, tc2));
                    assert forall|j: int| 0 <= j < tc2.child_structures@.len() implies
                        wn.structure_live(tc2.child_structures@[j] as int) && wn.structure_at(
                        tc2.child_structures@[j] as int,
                    ).attachment == StructureAttachment::Chunk && spec_chunk_of(
                        V2 {
                            x: wn.structure_at(tc2.child_structures@[j] as int).pos.x,
                            y: wn.structure_at(tc2.child_structures@[j] as int).pos.y,
                        },
                    ) == cpos by {
                        let y = tc2.child_structures@[j];
                        assert(wo.structure_live(y as int));
                        assert(y as int != s) by {
                            if y as int == s {
                                assert(oa is Chunk);
                                assert(spec_chunk_of(
                                    V2 {
                                        x: wo.structure_at(s).pos.x,
                                        y: wo.structure_at(s).pos.y,
                                    },
                                ) == cpos);
                            }
                        }
                        assert(wn.structure_at(y as int) == wo.structure_at(y as int));
                    }
                }
            },
            None => {},
        }
    }
    assert forall|cpos: V2, sid: u32| #[trigger] wn.sbc_has(cpos, sid) implies wn.structure_live(
        sid as int,
    ) && spec_chunk_range(wn.s_bounds(sid as int)).contains(cpos) by {
        assert(wo.sbc_has(cpos, sid));
        assert(wo.structure_live(sid as int));
        assert(sid as int != s) by {
            if sid as int == s {
                lemma_chunk_range_covers_self(wo, s, bounds, cpos);
            }
        }
        assert(wn.structure_at(sid as int) == wo.structure_at(sid as int));
    }
    assert forall|cpos: V2, sid: u32|
        wn.structure_live(sid as int) && spec_chunk_range(wn.s_bounds(sid as int)).contains(
            cpos,
        ) implies #[trigger] wn.sbc_has(cpos, sid) by {
        assert(sid as int != s);
        assert(wo.structure_live(sid as int)) by {
            wn.structures.lemma_live_bounds(sid as int);
        }
        assert(wn.structure_at(sid as int) == wo.structure_at(sid as int));
        assert(wo.sbc_has(cpos, sid));
    }
    assert forall|s1: int, s2: int|
        wn.structure_live(s1) && wn.structure_live(s2) && s1 != s2 implies !(
    #[trigger] wn.s_bounds(s1)).spec_overlaps(#[trigger] wn.s_bounds(s2)) by {
        assert(wo.structure_live(s1) && wo.structure_live(s2));
        assert(wn.s_bounds(s1) == wo.s_bounds(s1) && wn.s_bounds(s2) == wo.s_bounds(s2));
        assert(!wo.s_bounds(s1).spec_overlaps(wo.s_bounds(s2)));
    }
}

/// The sbc entry for `s` at `cpos` implies `cpos` is in its chunk range,
/// which the lookup removal has cleared; contradiction helper.
proof fn lemma_chunk_range_covers_self(wo: World, s: int, bounds: Region, cpos: V2)
    requires
        wo.wf_sbc_sound(),
        wo.sbc_has(cpos, s as u32),
        0 <= s <= u32::MAX,
        bounds == wo.s_bounds(s),
    ensures
        spec_chunk_range(bounds).contains(cpos),
{
    assert(spec_chunk_range(wo.s_bounds(s as u32 as int)).contains(cpos));
}

/// The hook events of tearing down chunk `pos` with child structures `sids`.
pub open spec fn chunk_destroy_events(wo: World, sids: Seq<u32>) -> Seq<HookEvent>
    decreases sids.len(),
{
    if sids.len() == 0 {
        Seq::empty()
    } else {
        structure_destroy_events(
            wo,
            sids[0] as int,
            wo.s_bounds(sids[0] as int),
        ) + chunk_destroy_events(wo, sids.drop_first())
    }
}

/// Unloads the chunk at `pos`, destroying the structures attached to it.
pub fn terrain_chunk_destroy(w: &mut World, hooks: &mut Vec<HookEvent>, pos: V2) -> (r: OpResult<
    (),
>)
    requires
        old(w).wf(),
    ensures
        final(w).wf(),
        match r {
            Ok(()) => {
                &&& old(w).chunk_loaded(pos)
                &&& !final(w).chunk_loaded(pos)
                &&& (forall|c2: V2|
                    c2 != pos ==> #[trigger] final(w).chunk_at(c2) == old(w).chunk_at(c2))
                &&& final(w).clients == old(w).clients
                &&& final(w).entities == old(w).entities
                &&& final(w).data == old(w).data
                &&& (forall|s2: int|
                    0 <= s2 <= u32::MAX && contains_id(
                        old(w).chunk_at(pos)->Some_0.child_structures@,
                        s2 as u32,
                    ) ==> !final(w).structure_live(s2))
                &&& (forall|s: StableId| #[trigger]
                    final(w).structures.spec_transient_of(s) == old(w).structures.spec_transient_of(s) || (final(w).structures.spec_transient_of(
                        s,
                    ) == None::<u32> && match old(w).structures.spec_transient_of(s) {
                        Some(t) => contains_id(
                            old(w).chunk_at(pos)->Some_0.child_structures@,
                            t,
                        ),
                        None => false,
                    }))
                &&& (forall|s: StableId| #[trigger]
                    final(w).inventories.spec_transient_of(s) == old(w).inventories.spec_transient_of(s) || (final(w).inventories.spec_transient_of(
                        s,
                    ) == None::<u32> && match old(w).inventories.spec_transient_of(s) {
                        Some(t) => 0 <= t && !final(w).inventory_live(t as int),
                        None => false,
                    }))
                &&& final(hooks)@ == old(hooks)@ + chunk_destroy_events(
                    *old(w),
                    old(w).chunk_at(pos)->Some_0.child_structures@,
                ).push(HookEvent::TerrainChunkDestroy(pos))
            },
            Err(_) => {
                &&& *final(w) == *old(w)
                &&& final(hooks)@ == old(hooks)@
                &&& !old(w).chunk_loaded(pos)
            },
        },
{
    let ghost wo = *old(w);
    let tc = match w.terrain_chunks.take(pack_v2(pos)) {
        Some(tc) => tc,
        None => {
            return Err("no chunk at given position");
        },
    };
    proof {
        assert(wo.chunk_at(pos) == Some(tc));
        assert(wo.wf_chunk_obj(pos, tc));
        assert forall|c2: V2| c2 != pos implies #[trigger] w.chunk_at(c2) == wo.chunk_at(
            c2,
        ) by {
            if spec_pack_v2(c2) == spec_pack_v2(pos) {
                lemma_pack_v2_injective(c2, pos);
            }
        }
        lemma_chunk_remove_preserves(wo, *w, pos, tc);
    }
    let sids = tc.child_structures;
    let n = sids.len();
    let mut k: usize = 0;
    while k < n
        invariant
            w.wf_x(None, Set::empty(), None, Some(pos)),
            wo.wf(),
            wo.chunk_loaded(pos),
            wo.chunk_at(pos) is Some,
            sids@ == wo.chunk_at(pos)->Some_0.child_structures@,
            n == sids@.len(),
            0 <= k <= n,
            sorted_unique(sids@),
            !w.chunk_loaded(pos),
            forall|c2: V2| c2 != pos ==> #[trigger] w.chunk_at(c2) == wo.chunk_at(c2),
            w.clients == wo.clients,
            w.entities == wo.entities,
            w.data == wo.data,
            forall|j: int|
                k <= j < n ==> w.structure_live(sids@[j] as int) && w.structure_at(
                    sids@[j] as int,
                ) == wo.structure_at(sids@[j] as int),
            forall|s2: int|
                #![trigger wo.structure_live(s2)]
                #![trigger w.structure_live(s2)]
                !(0 <= s2 <= u32::MAX) || !contains_prefix(sids@, k as int, s2 as u32) ==> {
                    &&& wo.structure_live(s2) == w.structure_live(s2)
                    &&& (wo.structure_live(s2) ==> w.structure_at(s2) == wo.structure_at(s2))
                },
            forall|s2: int|
                0 <= s2 <= u32::MAX && contains_prefix(sids@, k as int, s2 as u32)
                    ==> !w.structure_live(s2),
            forall|s: StableId|
                #![trigger w.structures.spec_transient_of(s)]
                w.structures.spec_transient_of(s) == wo.structures.spec_transient_of(s) || (
                w.structures.spec_transient_of(s) == None::<u32>
                    && match wo.structures.spec_transient_of(s) {
                    Some(t) => contains_prefix(sids@, k as int, t),
                    None => false,
                }),
            forall|s: StableId|
                #![trigger w.inventories.spec_transient_of(s)]
                w.inventories.spec_transient_of(s) == wo.inventories.spec_transient_of(s) || (
                w.inventories.spec_transient_of(s) == None::<u32>
                    && match wo.inventories.spec_transient_of(s) {
                    Some(t) => 0 <= t && !w.inventory_live(t as int),
                    None => false,
                }),
            hooks@ == old(hooks)@ + chunk_destroy_events_prefix(wo, sids@, k as int),
        decreases n - k,
    {
        let sid = StructureId(sids[k]);
        let ghost prev = *w;
        let res = structure_destroy_x(w, hooks, sid, Ghost(Some(pos)));
        proof {
            assert(res is Ok);
            assert(prev.structure_at(sid.0 as int) == wo.structure_at(sid.0 as int));
            assert forall|j: int|
                k + 1 <= j < n implies w.structure_live(sids@[j] as int) && w.structure_at(
                sids@[j] as int,
            ) == wo.structure_at(sids@[j] as int) by {
                crate::idset::lemma_sorted_distinct(sids@, j, k as int);
            }
            assert forall|s2: int|
                !(0 <= s2 <= u32::MAX) || !contains_prefix(sids@, k as int + 1, s2 as u32)
                    implies (wo.structure_live(s2) == w.structure_live(s2) && (
            wo.structure_live(s2) ==> w.structure_at(s2) == wo.structure_at(s2))) by {
                if 0 <= s2 <= u32::MAX {
                    assert(!contains_prefix(sids@, k as int, s2 as u32)) by {
                        if contains_prefix(sids@, k as int, s2 as u32) {
                            let j = choose|j: int|
                                0 <= j < k as int && sids@[j] == s2 as u32;
                            assert(0 <= j < k as int + 1 && sids@[j] == s2 as u32);
                            assert(contains_prefix(sids@, k as int + 1, s2 as u32));
                        }
                    }
                    assert(s2 != sid.0 as int) by {
                        if s2 == sid.0 as int {
                            assert(sids@[k as int] == s2 as u32);
                            assert(contains_prefix(sids@, k as int + 1, s2 as u32));
                        }
                    }
                }
            }
            assert forall|s2: int|
                0 <= s2 <= u32::MAX && contains_prefix(sids@, k as int + 1, s2 as u32)
                    implies !w.structure_live(s2) by {
                let j = choose|j: int| 0 <= j < k as int + 1 && sids@[j] == s2 as u32;
                if j < k {
                    assert(contains_prefix(sids@, k as int, s2 as u32));
                    assert(!prev.structure_live(s2));
                    assert(s2 != sid.0 as int) by {
                        crate::idset::lemma_sorted_distinct(sids@, j, k as int);
                    }
                } else {
                    assert(s2 == sid.0 as int);
                }
            }
            assert(wo.s_bounds(sid.0 as int) == prev.s_bounds(sid.0 as int));
            let ghost s_drop = prev.structures.stable_of(sid.0 as int);
            assert forall|s: StableId|
                #![trigger w.structures.spec_transient_of(s)]
                w.structures.spec_transient_of(s) == wo.structures.spec_transient_of(s) || (
                w.structures.spec_transient_of(s) == None::<u32>
                    && match wo.structures.spec_transient_of(s) {
                    Some(t) => contains_prefix(sids@, k as int + 1, t),
                    None => false,
                }) by {
                if s == s_drop && s_drop != crate::types::NO_STABLE_ID {
                    assert(w.structures.spec_transient_of(s) == None::<u32>);
                    prev.structures.lemma_stable_lookup(sid.0 as int);
                    assert(prev.structures.spec_transient_of(s) == Some(sid.0));
                    assert(wo.structures.spec_transient_of(s) == Some(sid.0));
                    assert(sids@[k as int] == sid.0);
                    assert(contains_prefix(sids@, k as int + 1, sid.0));
                } else {
                    assert(w.structures.spec_transient_of(s)
                        == prev.structures.spec_transient_of(s)) by {
                        if s == crate::types::NO_STABLE_ID {
                            w.structures.lemma_transient_of_zero();
                            prev.structures.lemma_transient_of_zero();
                        }
                    }
                    if prev.structures.spec_transient_of(s)
                        != wo.structures.spec_transient_of(s) {
                        match wo.structures.spec_transient_of(s) {
                            Some(t) => {
                                assert(contains_prefix(sids@, k as int, t));
                                let j0 = choose|j0: int|
                                    0 <= j0 < k as int && sids@[j0] == t;
                                assert(0 <= j0 < k as int + 1 && sids@[j0] == t);
                                assert(contains_prefix(sids@, k as int + 1, t));
                            },
                            None => {},
                        }
                    }
                }
            }
            assert forall|s: StableId|
                #![trigger w.inventories.spec_transient_of(s)]
                w.inventories.spec_transient_of(s) == wo.inventories.spec_transient_of(s) || (
                w.inventories.spec_transient_of(s) == None::<u32>
                    && match wo.inventories.spec_transient_of(s) {
                    Some(t) => 0 <= t && !w.inventory_live(t as int),
                    None => false,
                }) by {
                if w.inventories.spec_transient_of(s) != prev.inventories.spec_transient_of(
                    s,
                ) {
                    // dropped this step: points at one of the destroyed
                    // structure's child inventories, all dead now
                    match prev.inventories.spec_transient_of(s) {
                        Some(t) => {
                            assert(contains_id(
                                prev.structure_at(sid.0 as int).child_inventories@,
                                t,
                            ));
                            assert(!w.inventory_live(t as int));
                            assert(prev.inventories.spec_transient_of(s)
                                == wo.inventories.spec_transient_of(s) || (
                            prev.inventories.spec_transient_of(s) == None::<u32>));
                        },
                        None => {},
                    }
                } else {
                    if prev.inventories.spec_transient_of(s)
                        != wo.inventories.spec_transient_of(s) {
                        match wo.inventories.spec_transient_of(s) {
                            Some(t) => {
                                assert(!prev.inventory_live(t as int));
                                assert(!contains_id(
                                    prev.structure_at(sid.0 as int).child_inventories@,
                                    t as u32,
                                )) by {
                                    if contains_id(
                                        prev.structure_at(sid.0 as int).child_inventories@,
                                        t as u32,
                                    ) {
                                        let j0 = choose|j0: int|
                                            0 <= j0 < prev.structure_at(
                                                sid.0 as int,
                                            ).child_inventories@.len() && prev.structure_at(
                                                sid.0 as int,
                                            ).child_inventories@[j0] == t as u32;
                                        assert(prev.wf_structure_obj(
                                            sid.0 as int,
                                            Some(pos),
                                        ));
                                        assert(prev.inventory_live(t as int));
                                    }
                                }
                                assert(!w.inventory_live(t as int));
                            },
                            None => {},
                        }
                    }
                }
            }
            lemma_chunk_destroy_events_snoc(wo, sids@, k as int);
            assert(hooks@ =~= old(hooks)@ + chunk_destroy_events_prefix(wo, sids@, k as int
                + 1));
        }
        k += 1;
    }
    proof {
        lemma_chunk_destroy_events_full(wo, sids@);
        assert forall|st: int| #[trigger] w.structure_live(st) implies w.wf_structure_obj(
            st,
            None,
        ) by {
            assert(w.wf_structure_obj(st, Some(pos)));
            match w.structure_at(st).attachment {
                StructureAttachment::Chunk => {
                    let cp = spec_chunk_of(
                        V2 { x: w.structure_at(st).pos.x, y: w.structure_at(st).pos.y },
                    );
                    if cp == pos {
                        w.structures.lemma_live_bounds(st);
                        w.structures.lemma_len_le_limit();
                        if contains_prefix(sids@, n as int, st as u32) {
                            assert(!w.structure_live(st));
                        } else {
                            assert(wo.structure_live(st) && w.structure_at(st)
                                == wo.structure_at(st));
                            assert(wo.wf_structure_obj(st, None));
                            assert(match wo.chunk_at(pos) {
                                Some(tc2) => contains_id(tc2.child_structures@, st as u32),
                                None => false,
                            });
                            assert(contains_prefix(sids@, n as int, st as u32));
                        }
                        assert(false);
                    }
                },
                _ => {},
            }
        }
        assert(w.wf());
        assert forall|s: StableId| #[trigger] w.structures.spec_transient_of(s)
            == wo.structures.spec_transient_of(s) || (w.structures.spec_transient_of(s)
            == None::<u32> && match wo.structures.spec_transient_of(s) {
            Some(t) => contains_id(sids@, t),
            None => false,
        }) by {
            if w.structures.spec_transient_of(s) != wo.structures.spec_transient_of(s) {
                match wo.structures.spec_transient_of(s) {
                    Some(t) => {
                        assert(contains_prefix(sids@, n as int, t));
                        let j0 = choose|j0: int| 0 <= j0 < n as int && sids@[j0] == t;
                        assert(contains_id(sids@, t));
                    },
                    None => {},
                }
            }
        }
    }
    hooks.push(HookEvent::TerrainChunkDestroy(pos));
    proof {
        assert(hooks@ =~= old(hooks)@ + chunk_destroy_events(
            wo,
            wo.chunk_at(pos)->Some_0.child_structures@,
        ).push(HookEvent::TerrainChunkDestroy(pos)));
    }
    Ok(())
}

/// Prefix of the chunk-destroy event sequence.
pub open spec fn chunk_destroy_events_prefix(wo: World, sids: Seq<u32>, k: int) -> Seq<HookEvent> {
    chunk_destroy_events(wo, sids.take(k))
}

proof fn lemma_chunk_destroy_events_snoc(wo: World, sids: Seq<u32>, k: int)
    requires
        0 <= k < sids.len(),
    ensures
        chunk_destroy_events_prefix(wo, sids, k + 1) == chunk_destroy_events_prefix(wo, sids, k)
            + structure_destroy_events(wo, sids[k] as int, wo.s_bounds(sids[k] as int)),
    decreases k,
{
    if k == 0 {
        let s1 = sids.take(1);
        assert(s1.len() == 1 && s1[0] == sids[0]);
        assert(s1.drop_first() =~= Seq::<u32>::empty());
        assert(chunk_destroy_events(wo, s1.drop_first()).len() == 0);
        assert(chunk_destroy_events(wo, s1) == structure_destroy_events(
            wo,
            s1[0] as int,
            wo.s_bounds(s1[0] as int),
        ) + chunk_destroy_events(wo, s1.drop_first()));
        assert(sids.take(0) =~= Seq::<u32>::empty());
        assert(chunk_destroy_events(wo, sids.take(0)).len() == 0);
        assert(chunk_destroy_events_prefix(wo, sids, 1) =~= chunk_destroy_events_prefix(
            wo,
            sids,
            0,
        ) + structure_destroy_events(wo, sids[0] as int, wo.s_bounds(sids[0] as int)));
    } else {
        lemma_chunk_destroy_events_snoc(wo, sids.drop_first(), k - 1);
        assert(sids.take(k + 1).drop_first() =~= sids.drop_first().take(k));
        assert(sids.take(k).drop_first() =~= sids.drop_first().take(k - 1));
        assert(sids.take(k + 1)[0] == sids[0] && sids.take(k)[0] == sids[0]);
        assert(sids.drop_first()[k - 1] == sids[k]);
        assert(chunk_destroy_events(wo, sids.take(k + 1)) == structure_destroy_events(
            wo,
            sids[0] as int,
            wo.s_bounds(sids[0] as int),
        ) + chunk_destroy_events(wo, sids.drop_first().take(k)));
        assert(chunk_destroy_events(wo, sids.take(k)) == structure_destroy_events(
            wo,
            sids[0] as int,
            wo.s_bounds(sids[0] as int),
        ) + chunk_destroy_events(wo, sids.drop_first().take(k - 1)));
        assert(chunk_destroy_events_prefix(wo, sids, k + 1) =~= chunk_destroy_events_prefix(
            wo,
            sids,
            k,
        ) + structure_destroy_events(wo, sids[k] as int, wo.s_bounds(sids[k] as int)));
    }
}

proof fn lemma_chunk_destroy_events_full(wo: World, sids: Seq<u32>)
    ensures
        chunk_destroy_events_prefix(wo, sids, sids.len() as int) == chunk_destroy_events(
            wo,
            sids,
        ),
{
    assert(sids.take(sids.len() as int) =~= sids);
}

/// Removing a chunk row alone leaves the invariants waived for its
/// dangling child structures.
proof fn lemma_chunk_remove_preserves(wo: World, wn: World, pos: V2, tc: TerrainChunk)
    requires
        wo.wf(),
        wo.chunk_at(pos) == Some(tc),
        !wn.chunk_loaded(pos),
        forall|c2: V2| c2 != pos ==> #[trigger] wn.chunk_at(c2) == wo.chunk_at(c2),
        wn.terrain_chunks.wf(),
        wn.clients == wo.clients,
        wn.entities == wo.entities,
        wn.structures == wo.structures,
        wn.inventories == wo.inventories,
        wn.structures_by_chunk == wo.structures_by_chunk,
        wn.data == wo.data,
    ensures
        wn.wf_x(None, Set::empty(), None, Some(pos)),
{
    assert forall|c: int| #[trigger] wn.client_live(c) implies wn.wf_client_obj(c) by {
        assert(wo.client_live(c));
        assert(wo.wf_client_obj(c));
    }
    assert forall|e: int| #[trigger] wn.entity_live(e) implies wn.wf_entity_obj(e, None) by {
        assert(wo.entity_live(e));
        assert(wo.wf_entity_obj(e, None));
    }
    assert forall|st: int| #[trigger] wn.structure_live(st) implies wn.wf_structure_obj(
        st,
        Some(pos),
    ) by {
        assert(wo.structure_live(st));
        assert(wo.wf_structure_obj(st, None));
        match wn.structure_at(st).attachment {
            StructureAttachment::Chunk => {
                let cp = spec_chunk_of(
                    V2 { x: wn.structure_at(st).pos.x, y: wn.structure_at(st).pos.y },
                );
                if cp != pos {
                    assert(wn.chunk_at(cp) == wo.chunk_at(cp));
                }
            },
            _ => {},
        }
    }
    assert forall|i: int| #[trigger] wn.inventory_live(i) implies wn.wf_inventory_obj(
        i,
        None,
        Set::empty(),
        None,
    ) by {
        assert(wo.inventory_live(i));
        assert(wo.wf_inventory_obj(i, None, Set::empty(), None));
    }
    assert forall|cpos: V2| match #[trigger] wn.chunk_at(cpos) {
        Some(tc2) => wn.wf_chunk_obj(cpos, tc2),
        None => true,
    } by {
        match wn.chunk_at(cpos) {
            Some(tc2) => {
                assert(cpos != pos);
                assert(wo.chunk_at(cpos) == Some(tc2));
                assert(wo.wf_chunk_obj(cpos, tc2));
            },
            None => {},
        }
    }
    lemma_sbc_unchanged(wo, wn);
}


// ------------------------------------------------------------------
// structure attach / replace / loader entry points

/// Re-parents structure `sid` between the world and its containing chunk.
/// On success returns the previous attachment.
pub fn structure_attach(
    w: &mut World,
    sid: StructureId,
    new_attach: StructureAttachment,
) -> (r: OpResult<StructureAttachment>)
    requires
        old(w).wf(),
    ensures
        final(w).wf(),
        match r {
            Ok(prev) => {
                &&& old(w).structure_live(sid.0 as int)
                &&& prev == old(w).structure_at(sid.0 as int).attachment
                &&& final(w).structure_live(sid.0 as int)
                &&& final(w).structure_at(sid.0 as int).attachment == new_attach
                &&& final(w).structure_at(sid.0 as int).pos == old(w).structure_at(
                    sid.0 as int,
                ).pos
                &&& final(w).structure_at(sid.0 as int).template == old(w).structure_at(
                    sid.0 as int,
                ).template
                &&& final(w).clients == old(w).clients
                &&& final(w).entities == old(w).entities
                &&& final(w).inventories == old(w).inventories
                &&& final(w).structures_by_chunk == old(w).structures_by_chunk
                &&& final(w).data == old(w).data
                &&& (prev == new_attach ==> *final(w) == *old(w))
            },
            Err(_) => {
                &&& *final(w) == *old(w)
                &&& (!old(w).structure_live(sid.0 as int) || (new_attach
                    is Chunk && !old(w).chunk_loaded(
                    spec_chunk_of(
                        V2 {
                            x: old(w).structure_at(sid.0 as int).pos.x,
                            y: old(w).structure_at(sid.0 as int).pos.y,
                        },
                    ),
                )))
            },
        },
{
    let ghost wo = *old(w);
    let (pos, old_attach) = match w.structures.get(sid.0) {
        Some(st) => (st.pos, st.attachment),
        None => {
            return Err("no structure with given id");
        },
    };
    proof {
        assert(wo.structure_live(sid.0 as int));
        assert(wo.wf_structure_obj(sid.0 as int, None));
    }
    if old_attach == new_attach {
        return Ok(new_attach);
    }
    let cpos = chunk_of(V2 { x: pos.x, y: pos.y });
    match new_attach {
        StructureAttachment::World => {},
        StructureAttachment::Chunk => {
            let ghost prevw = *w;
            match w.terrain_chunks.take(pack_v2(cpos)) {
                Some(mut tc) => {
                    proof {
                        assert(wo.chunk_at(cpos) == Some(tc));
                        assert(wo.wf_chunk_obj(cpos, tc));
                    }
                    idset_insert(&mut tc.child_structures, sid.0);
                    w.terrain_chunks.insert(pack_v2(cpos), tc);
                    proof {
                        assert forall|c2: V2| c2 != cpos implies #[trigger] w.chunk_at(c2)
                            == wo.chunk_at(c2) by {
                            if spec_pack_v2(c2) == spec_pack_v2(cpos) {
                                lemma_pack_v2_injective(c2, cpos);
                            }
                        }
                    }
                },
                None => {
                    return Err("can't attach structure to unloaded chunk");
                },
            }
        },
    }
    match w.structures.get_mut(sid.0) {
        Some(st) => {
            st.attachment = new_attach;
        },
        None => {
            proof {
                assert(false);
            }
        },
    }
    match old_attach {
        StructureAttachment::World => {},
        StructureAttachment::Chunk => {
            match w.terrain_chunks.take(pack_v2(cpos)) {
                Some(mut tc) => {
                    idset_remove(&mut tc.child_structures, sid.0);
                    w.terrain_chunks.insert(pack_v2(cpos), tc);
                    proof {
                        assert forall|c2: V2| c2 != cpos implies #[trigger] w.chunk_at(c2)
                            == wo.chunk_at(c2) by {
                            if spec_pack_v2(c2) == spec_pack_v2(cpos) {
                                lemma_pack_v2_injective(c2, cpos);
                            }
                        }
                    }
                },
                None => {
                    proof {
                        assert(false);
                    }
                },
            }
        },
    }
    proof {
        assert forall|c2: V2| c2 != cpos implies #[trigger] w.chunk_at(c2) == wo.chunk_at(
            c2,
        ) by {
            if spec_pack_v2(c2) == spec_pack_v2(cpos) {
                lemma_pack_v2_injective(c2, cpos);
            } else {
                assert(w.terrain_chunks.spec_get(spec_pack_v2(c2))
                    == wo.terrain_chunks.spec_get(spec_pack_v2(c2)));
            }
        }
        lemma_structure_attach_preserves(wo, *w, sid.0 as int, old_attach, new_attach, cpos);
    }
    Ok(old_attach)
}

/// The `structure_attach` frame preserves well-formedness.
proof fn lemma_structure_attach_preserves(
    wo: World,
    wn: World,
    s: int,
    oa: StructureAttachment,
    na: StructureAttachment,
    cpos: V2,
)
    requires
        wo.wf(),
        wo.structure_live(s),
        0 <= s <= u32::MAX,
        oa == wo.structure_at(s).attachment,
        oa != na,
        cpos == spec_chunk_of(V2 { x: wo.structure_at(s).pos.x, y: wo.structure_at(s).pos.y }),
        wn.structure_live(s),
        wn.structure_at(s) == (Structure { attachment: na, ..wo.structure_at(s) }),
        structures_same_except(wo, wn, s),
        wn.structures.wf(),
        wn.terrain_chunks.wf(),
        na is Chunk ==> wo.chunk_loaded(cpos),
        forall|c2: V2| c2 != cpos ==> #[trigger] wn.chunk_at(c2) == wo.chunk_at(c2),
        (match wo.chunk_at(cpos) {
            Some(tc) => match wn.chunk_at(cpos) {
                Some(tc2) => tc2.blocks == tc.blocks && sorted_unique(tc2.child_structures@) && (
                forall|y: u32| #[trigger]
                    contains_id(tc2.child_structures@, y) == ((contains_id(
                        tc.child_structures@,
                        y,
                    ) || (na is Chunk && y == s as u32)) && !(oa is Chunk && y == s as u32))),
                None => false,
            },
            None => wn.chunk_at(cpos) is None && !(na is Chunk) && !(oa is Chunk),
        }),
        wn.clients == wo.clients,
        wn.entities == wo.entities,
        wn.inventories == wo.inventories,
        wn.structures_by_chunk == wo.structures_by_chunk,
        wn.data == wo.data,
    ensures
        wn.wf(),
{
    assert forall|c: int| #[trigger] wn.client_live(c) implies wn.wf_client_obj(c) by {
        assert(wo.client_live(c));
        assert(wo.wf_client_obj(c));
        assert(wn.client_at(c) == wo.client_at(c));
    }
    assert forall|e: int| #[trigger] wn.entity_live(e) implies wn.wf_entity_obj(e, None) by {
        assert(wo.entity_live(e));
        assert(wo.wf_entity_obj(e, None));
    }
    assert forall|st: int| #[trigger] wn.structure_live(st) implies wn.wf_structure_obj(
        st,
        None,
    ) by {
        assert(wo.structure_live(st));
        assert(wo.wf_structure_obj(st, None));
        wo.structures.lemma_live_bounds(st);
        wo.structures.lemma_len_le_limit();
        if st != s {
            assert(wn.structure_at(st) == wo.structure_at(st));
            match wn.structure_at(st).attachment {
                StructureAttachment::Chunk => {
                    let cp = spec_chunk_of(
                        V2 { x: wn.structure_at(st).pos.x, y: wn.structure_at(st).pos.y },
                    );
                    assert(match wo.chunk_at(cp) {
                        Some(tc) => contains_id(tc.child_structures@, st as u32),
                        None => false,
                    });
                    if cp == cpos {
                        assert(match wn.chunk_at(cp) {
                            Some(tc2) => contains_id(tc2.child_structures@, st as u32),
                            None => false,
                        });
                    } else {
                        assert(wn.chunk_at(cp) == wo.chunk_at(cp));
                    }
                },
                _ => {},
            }
        } else {
            if na is Chunk {
                assert(match wn.chunk_at(cpos) {
                    Some(tc2) => contains_id(tc2.child_structures@, s as u32),
                    None => false,
                });
            }
        }
        assert forall|j: int|
            0 <= j < wn.structure_at(st).child_inventories@.len() implies wn.inventory_live(
            wn.structure_at(st).child_inventories@[j] as int,
        ) && wn.inventory_at(wn.structure_at(st).child_inventories@[j] as int).attachment
            == InventoryAttachment::Structure(StructureId(st as u32)) by {
            assert(wn.structure_at(st).child_inventories == wo.structure_at(
                st,
            ).child_inventories);
            assert(wo.inventory_live(wn.structure_at(st).child_inventories@[j] as int));
        }
    }
    assert forall|i: int| #[trigger] wn.inventory_live(i) implies wn.wf_inventory_obj(
        i,
        None,
        Set::empty(),
        None,
    ) by {
        assert(wo.inventory_live(i));
        assert(wo.wf_inventory_obj(i, None, Set::empty(), None));
        match wn.inventory_at(i).attachment {
            InventoryAttachment::Structure(sid2) => {
                assert(wo.structure_live(sid2.0 as int));
                if sid2.0 as int == s {
                    assert(wn.structure_at(s).child_inventories == wo.structure_at(
                        s,
                    ).child_inventories);
                } else {
                    assert(wn.structure_at(sid2.0 as int) == wo.structure_at(sid2.0 as int));
                }
            },
            _ => {},
        }
    }
    assert forall|cp: V2| match #[trigger] wn.chunk_at(cp) {
        Some(tc2) => wn.wf_chunk_obj(cp, tc2),
        None => true,
    } by {
        match wn.chunk_at(cp) {
            Some(tc2) => {
                if cp == cpos && wo.chunk_at(cpos) is Some {
                    let tc = wo.chunk_at(cpos)->Some_0;
                    assert(wo.wf_chunk_obj(cp, tc));
                    assert forall|j: int| 0 <= j < tc2.child_structures@.len() implies
                        wn.structure_live(tc2.child_structures@[j] as int) && wn.structure_at(
                        tc2.child_structures@[j] as int,
                    ).attachment == StructureAttachment::Chunk && spec_chunk_of(
                        V2 {
                            x: wn.structure_at(tc2.child_structures@[j] as int).pos.x,
                            y: wn.structure_at(tc2.child_structures@[j] as int).pos.y,
                        },
                    ) == cp by {
                        let y = tc2.child_structures@[j];
                        assert(contains_id(tc2.child_structures@, y));
                        if y == s as u32 {
                            assert(na is Chunk);
                            assert(wn.structure_at(s).attachment == na);
                        } else {
                            assert(contains_id(tc.child_structures@, y));
                            let j0 = choose|j0: int|
                                0 <= j0 < tc.child_structures@.len()
                                    && tc.child_structures@[j0] == y;
                            assert(wo.structure_live(tc.child_structures@[j0] as int));
                            assert(wn.structure_at(y as int) == wo.structure_at(y as int));
                        }
                    }
                } else {
                    assert(wn.chunk_at(cp) == wo.chunk_at(cp));
                    assert(wo.wf_chunk_obj(cp, tc2));
                    assert forall|j: int| 0 <= j < tc2.child_structures@.len() implies
                        wn.structure_live(tc2.child_structures@[j] as int) && wn.structure_at(
                        tc2.child_structures@[j] as int,
                    ).attachment == StructureAttachment::Chunk && spec_chunk_of(
                        V2 {
                            x: wn.structure_at(tc2.child_structures@[j] as int).pos.x,
                            y: wn.structure_at(tc2.child_structures@[j] as int).pos.y,
                        },
                    ) == cp by {
                        let y = tc2.child_structures@[j];
                        assert(wo.structure_live(y as int));
                        assert(y as int != s) by {
                            if y as int == s {
                                assert(oa is Chunk);
                                assert(cp == cpos);
                            }
                        }
                        assert(wn.structure_at(y as int) == wo.structure_at(y as int));
                    }
                }
            },
            None => {},
        }
    }
    assert forall|cp: V2, sid: u32| #[trigger] wn.sbc_has(cp, sid) implies wn.structure_live(
        sid as int,
    ) && spec_chunk_range(wn.s_bounds(sid as int)).contains(cp) by {
        assert(wo.sbc_has(cp, sid));
        if sid as int == s {
            assert(wn.s_bounds(s) == wo.s_bounds(s));
        } else {
            assert(wn.structure_at(sid as int) == wo.structure_at(sid as int));
        }
    }
    assert forall|cp: V2, sid: u32|
        wn.structure_live(sid as int) && spec_chunk_range(wn.s_bounds(sid as int)).contains(
            cp,
        ) implies #[trigger] wn.sbc_has(cp, sid) by {
        assert(wo.structure_live(sid as int));
        if sid as int == s {
            assert(wn.s_bounds(s) == wo.s_bounds(s));
        } else {
            assert(wn.structure_at(sid as int) == wo.structure_at(sid as int));
        }
        assert(wo.sbc_has(cp, sid));
    }
    assert forall|cp: V2| match #[trigger] wn.structures_by_chunk.spec_get(spec_pack_v2(cp)) {
        Some(l) => sorted_unique(l@),
        None => true,
    } by {
        assert(wn.structures_by_chunk.spec_get(spec_pack_v2(cp))
            == wo.structures_by_chunk.spec_get(spec_pack_v2(cp)));
    }
    assert forall|s1: int, s2: int|
        wn.structure_live(s1) && wn.structure_live(s2) && s1 != s2 implies !(
    #[trigger] wn.s_bounds(s1)).spec_overlaps(#[trigger] wn.s_bounds(s2)) by {
        assert(wo.structure_live(s1) && wo.structure_live(s2));
        assert(wn.s_bounds(s1) == wo.s_bounds(s1) && wn.s_bounds(s2) == wo.s_bounds(s2));
        assert(!wo.s_bounds(s1).spec_overlaps(wo.s_bounds(s2)));
    }
}

/// Swaps the structure's template for one with identical size, shape and
/// layer; the box is unchanged, so only the appearance changes.
pub fn structure_replace(
    w: &mut World,
    hooks: &mut Vec<HookEvent>,
    sid: StructureId,
    new_tid: TemplateId,
) -> (r: OpResult<()>)
    requires
        old(w).wf(),
    ensures
        final(w).wf(),
        match r {
            Ok(()) => {
                &&& old(w).structure_live(sid.0 as int)
                &&& final(w).structure_live(sid.0 as int)
                &&& (new_tid as int) < old(w).data.templates@.len()
                &&& old(w).data.templates@[new_tid as int].size == old(w).data.templates@[old(w).structure_at(sid.0 as int).template as int].size
                &&& old(w).data.templates@[new_tid as int].shape == old(w).data.templates@[old(w).structure_at(sid.0 as int).template as int].shape
                &&& old(w).data.templates@[new_tid as int].layer == old(w).data.templates@[old(w).structure_at(sid.0 as int).template as int].layer
                &&& final(w).structure_at(sid.0 as int) == (Structure {
                    template: new_tid,
                    ..old(w).structure_at(sid.0 as int)
                })
                &&& structures_same_except(*old(w), *final(w), sid.0 as int)
                &&& final(w).clients == old(w).clients
                &&& final(w).entities == old(w).entities
                &&& final(w).inventories == old(w).inventories
                &&& final(w).terrain_chunks == old(w).terrain_chunks
                &&& final(w).structures_by_chunk == old(w).structures_by_chunk
                &&& final(w).data == old(w).data
                &&& final(hooks)@ == old(hooks)@ + spec_invalidate_events(
                    spec_chunk_range(old(w).s_bounds(sid.0 as int)),
                ).push(HookEvent::StructureReplace(sid, old(w).s_bounds(sid.0 as int)))
            },
            Err(_) => {
                &&& *final(w) == *old(w)
                &&& final(hooks)@ == old(hooks)@
                &&& (!old(w).structure_live(sid.0 as int) || (new_tid as int) >= old(w).data.templates@.len() || {
                    let old_t = old(w).data.templates@[old(w).structure_at(
                        sid.0 as int,
                    ).template as int];
                    let new_t = old(w).data.templates@[new_tid as int];
                    old_t.size != new_t.size || old_t.shape != new_t.shape || old_t.layer
                        != new_t.layer
                })
            },
        },
{
    let ghost wo = *old(w);
    let (pos, old_tid) = match w.structures.get(sid.0) {
        Some(st) => (st.pos, st.template),
        None => {
            return Err("no structure with given id");
        },
    };
    proof {
        assert(wo.structure_live(sid.0 as int));
        assert(wo.wf_structure_obj(sid.0 as int, None));
    }
    let old_tpl = match w.data.get_template(old_tid) {
        Some(t) => *t,
        None => {
            proof {
                assert(false);
            }
            return Err("broken invariant");
        },
    };
    let new_tpl = match w.data.get_template(new_tid) {
        Some(t) => *t,
        None => {
            return Err("no structure template with given id");
        },
    };
    if !(old_tpl.size == new_tpl.size) || !(old_tpl.shape == new_tpl.shape) || old_tpl.layer
        != new_tpl.layer {
        return Err("replacement structure template differs in shape");
    }
    match w.structures.get_mut(sid.0) {
        Some(st) => {
            st.template = new_tid;
        },
        None => {
            proof {
                assert(false);
            }
        },
    }
    let bounds = Region {
        min: pos,
        max: V3 {
            x: pos.x + old_tpl.size.x,
            y: pos.y + old_tpl.size.y,
            z: pos.z + old_tpl.size.z,
        },
    };
    proof {
        assert(bounds == wo.s_bounds(sid.0 as int));
        assert(w.s_bounds(sid.0 as int) == wo.s_bounds(sid.0 as int));
        lemma_structure_replace_preserves(wo, *w, sid.0 as int, new_tid);
    }
    invalidate_region(hooks, bounds);
    hooks.push(HookEvent::StructureReplace(sid, bounds));
    proof {
        assert(hooks@ =~= old(hooks)@ + spec_invalidate_events(spec_chunk_range(bounds)).push(
            HookEvent::StructureReplace(sid, bounds),
        ));
    }
    Ok(())
}

/// A template swap that keeps the box preserves every invariant.
proof fn lemma_structure_replace_preserves(wo: World, wn: World, s: int, new_tid: TemplateId)
    requires
        wo.wf(),
        wo.structure_live(s),
        0 <= s <= u32::MAX,
        (new_tid as int) < wo.data.templates@.len(),
        wo.data.templates@[new_tid as int].size == wo.data.templates@[wo.structure_at(
            s,
        ).template as int].size,
        wn.structure_live(s),
        wn.structure_at(s) == (Structure { template: new_tid, ..wo.structure_at(s) }),
        structures_same_except(wo, wn, s),
        wn.structures.wf(),
        wn.clients == wo.clients,
        wn.entities == wo.entities,
        wn.inventories == wo.inventories,
        wn.terrain_chunks == wo.terrain_chunks,
        wn.structures_by_chunk == wo.structures_by_chunk,
        wn.data == wo.data,
    ensures
        wn.wf(),
{
    assert(wn.s_bounds(s) == wo.s_bounds(s));
    assert forall|c: int| #[trigger] wn.client_live(c) implies wn.wf_client_obj(c) by {
        assert(wo.client_live(c));
        assert(wo.wf_client_obj(c));
    }
    assert forall|e: int| #[trigger] wn.entity_live(e) implies wn.wf_entity_obj(e, None) by {
        assert(wo.entity_live(e));
        assert(wo.wf_entity_obj(e, None));
    }
    assert forall|st: int| #[trigger] wn.structure_live(st) implies wn.wf_structure_obj(
        st,
        None,
    ) by {
        assert(wo.structure_live(st));
        assert(wo.wf_structure_obj(st, None));
        if st != s {
            assert(wn.structure_at(st) == wo.structure_at(st));
        } else {
            assert(wn.structure_at(s).child_inventories == wo.structure_at(
                s,
            ).child_inventories);
        }
    }
    assert forall|i: int| #[trigger] wn.inventory_live(i) implies wn.wf_inventory_obj(
        i,
        None,
        Set::empty(),
        None,
    ) by {
        assert(wo.inventory_live(i));
        assert(wo.wf_inventory_obj(i, None, Set::empty(), None));
        match wn.inventory_at(i).attachment {
            InventoryAttachment::Structure(sid2) => {
                assert(wo.structure_live(sid2.0 as int));
                if sid2.0 as int == s {
                    assert(wn.structure_at(s).child_inventories == wo.structure_at(
                        s,
                    ).child_inventories);
                } else {
                    assert(wn.structure_at(sid2.0 as int) == wo.structure_at(sid2.0 as int));
                }
            },
            _ => {},
        }
    }
    assert forall|cp: V2| match #[trigger] wn.chunk_at(cp) {
        Some(tc) => wn.wf_chunk_obj(cp, tc),
        None => true,
    } by {
        match wn.chunk_at(cp) {
            Some(tc) => {
                assert(wo.chunk_at(cp) == Some(tc));
                assert(wo.wf_chunk_obj(cp, tc));
                assert forall|j: int| 0 <= j < tc.child_structures@.len() implies
                    wn.structure_live(tc.child_structures@[j] as int) && wn.structure_at(
                    tc.child_structures@[j] as int,
                ).attachment == StructureAttachment::Chunk && spec_chunk_of(
                    V2 {
                        x: wn.structure_at(tc.child_structures@[j] as int).pos.x,
                        y: wn.structure_at(tc.child_structures@[j] as int).pos.y,
                    },
                ) == cp by {
                    let y = tc.child_structures@[j];
                    assert(wo.structure_live(y as int));
                    if y as int == s {
                        assert(wn.structure_at(s).attachment == wo.structure_at(s).attachment
                            && wn.structure_at(s).pos == wo.structure_at(s).pos);
                    } else {
                        assert(wn.structure_at(y as int) == wo.structure_at(y as int));
                    }
                }
            },
            None => {},
        }
    }
    assert forall|cp: V2, sid: u32| #[trigger] wn.sbc_has(cp, sid) implies wn.structure_live(
        sid as int,
    ) && spec_chunk_range(wn.s_bounds(sid as int)).contains(cp) by {
        assert(wo.sbc_has(cp, sid));
        if sid as int != s {
            assert(wn.structure_at(sid as int) == wo.structure_at(sid as int));
        }
    }
    assert forall|cp: V2, sid: u32|
        wn.structure_live(sid as int) && spec_chunk_range(wn.s_bounds(sid as int)).contains(
            cp,
        ) implies #[trigger] wn.sbc_has(cp, sid) by {
        assert(wo.structure_live(sid as int));
        if sid as int != s {
            assert(wn.structure_at(sid as int) == wo.structure_at(sid as int));
        }
        assert(wo.sbc_has(cp, sid));
    }
    assert forall|cp: V2| match #[trigger] wn.structures_by_chunk.spec_get(spec_pack_v2(cp)) {
        Some(l) => sorted_unique(l@),
        None => true,
    } by {
        assert(wn.structures_by_chunk.spec_get(spec_pack_v2(cp))
            == wo.structures_by_chunk.spec_get(spec_pack_v2(cp)));
    }
    assert forall|s1: int, s2: int|
        wn.structure_live(s1) && wn.structure_live(s2) && s1 != s2 implies !(
    #[trigger] wn.s_bounds(s1)).spec_overlaps(#[trigger] wn.s_bounds(s2)) by {
        assert(wo.structure_live(s1) && wo.structure_live(s2));
        assert(wn.s_bounds(s1) == wo.s_bounds(s1) && wn.s_bounds(s2) == wo.s_bounds(s2));
        assert(!wo.s_bounds(s1).spec_overlaps(wo.s_bounds(s2)));
    }
}

/// Places a structure for the save loader: full placement validation, but
/// no hook or invalidation events.
pub fn structure_create_unchecked(w: &mut World, pos: V3, tid: TemplateId) -> (r: OpResult<
    StructureId,
>)
    requires
        old(w).wf(),
        -COORD_LIMIT <= pos.x <= COORD_LIMIT,
        -COORD_LIMIT <= pos.y <= COORD_LIMIT,
        -COORD_LIMIT <= pos.z <= COORD_LIMIT,
    ensures
        final(w).wf(),
        match r {
            Ok(sid) => {
                &&& !old(w).structure_live(sid.0 as int)
                &&& final(w).structure_live(sid.0 as int)
                &&& final(w).structure_at(sid.0 as int).pos == pos
                &&& final(w).structure_at(sid.0 as int).template == tid
                &&& structures_same_except(*old(w), *final(w), sid.0 as int)
                &&& final(w).structures.stable_of(sid.0 as int) == crate::types::NO_STABLE_ID
                &&& (forall|s: StableId| #[trigger] final(w).structures.spec_transient_of(s)
                    == old(w).structures.spec_transient_of(s))
                &&& final(w).clients == old(w).clients
                &&& final(w).entities == old(w).entities
                &&& final(w).inventories == old(w).inventories
                &&& final(w).terrain_chunks == old(w).terrain_chunks
                &&& final(w).data == old(w).data
            },
            Err(_) => {
                &&& *final(w) == *old(w)
                &&& ((tid as int) >= old(w).data.templates@.len() || !spec_placement_ok(
                    *old(w),
                    spec_template_bounds(pos, old(w).data.templates@[tid as int].size),
                ) || old(w).structures.spec_len() == old(w).structures.spec_limit())
            },
        },
{
    let mut hooks: Vec<HookEvent> = Vec::new();
    structure_create(w, &mut hooks, pos, tid)
}

/// Registers a loader-created structure's indices; with this library's
/// loader entry points the index is already exact, so this only fires the
/// invalidation events for the structure's chunks.
pub fn structure_post_init(w: &mut World, hooks: &mut Vec<HookEvent>, sid: StructureId) -> (r:
    OpResult<()>)
    requires
        old(w).wf(),
    ensures
        *final(w) == *old(w),
        match r {
            Ok(()) => {
                &&& old(w).structure_live(sid.0 as int)
                &&& final(hooks)@ == old(hooks)@ + spec_invalidate_events(
                    spec_chunk_range(old(w).s_bounds(sid.0 as int)),
                )
            },
            Err(_) => {
                &&& final(hooks)@ == old(hooks)@
                &&& !old(w).structure_live(sid.0 as int)
            },
        },
{
    let (pos, tid) = match w.structures.get(sid.0) {
        Some(st) => (st.pos, st.template),
        None => {
            return Err("no structure with given id");
        },
    };
    proof {
        assert(old(w).structure_live(sid.0 as int));
        assert(old(w).wf_structure_obj(sid.0 as int, None));
    }
    let tpl = match w.data.get_template(tid) {
        Some(t) => *t,
        None => {
            proof {
                assert(false);
            }
            return Err("broken invariant");
        },
    };
    let bounds = Region {
        min: pos,
        max: V3 { x: pos.x + tpl.size.x, y: pos.y + tpl.size.y, z: pos.z + tpl.size.z },
    };
    invalidate_region(hooks, bounds);
    Ok(())
}

/// Prepares a structure for unloading: fires the invalidation events for
/// its chunks (the index entries leave with `structure_destroy`).
pub fn structure_pre_fini(w: &mut World, hooks: &mut Vec<HookEvent>, sid: StructureId) -> (r:
    OpResult<()>)
    requires
        old(w).wf(),
    ensures
        *final(w) == *old(w),
        match r {
            Ok(()) => {
                &&& old(w).structure_live(sid.0 as int)
                &&& final(hooks)@ == old(hooks)@ + spec_invalidate_events(
                    spec_chunk_range(old(w).s_bounds(sid.0 as int)),
                )
            },
            Err(_) => {
                &&& final(hooks)@ == old(hooks)@
                &&& !old(w).structure_live(sid.0 as int)
            },
        },
{
    structure_post_init(w, hooks, sid)
}

/// Saturating updates cancel exactly when neither bound is hit: adding `n`
/// and then subtracting `n` restores the original count.
pub proof fn lemma_inventory_update_round_trip(c: int, n: int)
    requires
        0 <= c <= 255,
        0 <= n,
        c + n <= 255,
        n <= 0x7FFF,
    ensures
        spec_update_item_count(spec_update_item_count(c, n), -n) == c,
{
}

} // verus!

