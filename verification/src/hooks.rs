//! Post-mutation notifications.  Each world operation appends the events it
//! fires, in order, to a caller-supplied buffer; the engine delivers them to
//! its observer (vision, messaging, save-writer) after the op returns.

use vstd::prelude::*;
use crate::types::{ClientId, EntityId, InventoryId, StructureId, ItemId};
use crate::geom::{V2, Region};

verus! {

#[derive(Clone, Copy, PartialEq, Eq, Structural, Debug)]
pub enum HookEvent {
    ClientCreate(ClientId),
    ClientDestroy(ClientId),
    ClientChangePawn(ClientId, Option<EntityId>, Option<EntityId>),
    TerrainChunkCreate(V2),
    TerrainChunkDestroy(V2),
    EntityCreate(EntityId),
    EntityDestroy(EntityId),
    StructureCreate(StructureId),
    StructureDestroy(StructureId, Region),
    StructureReplace(StructureId, Region),
    ChunkInvalidate(V2),
    InventoryCreate(InventoryId),
    InventoryDestroy(InventoryId),
    InventoryUpdate(InventoryId, ItemId, u8, u8),
}

} // verus!
