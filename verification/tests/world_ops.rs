//! World-graph operation tests: placement, cascades, inventories, ids.

use backend::geom::{V2, V3};
use backend::hooks::HookEvent;
use backend::stable_id_map::StableIdMap;
use backend::types::{ClientId, EntityId, InventoryId};
use backend::world::ops;
use backend::world::{Data, EntityAttachment, InventoryAttachment, Shape, StructureTemplate, World};
use backend::CHUNK_TOTAL;

fn test_data() -> Data {
    Data {
        block_shapes: vec![Shape::Empty, Shape::Floor, Shape::Solid],
        templates: vec![
            StructureTemplate { size: V3 { x: 1, y: 1, z: 1 }, shape: Shape::Solid, layer: 0 },
            StructureTemplate { size: V3 { x: 1, y: 1, z: 1 }, shape: Shape::Solid, layer: 0 },
        ],
    }
}

fn world_with_chunk() -> World {
    let mut w = World::new(test_data());
    let mut hooks: Vec<HookEvent> = Vec::new();
    let blocks: Vec<u16> = vec![0u16; CHUNK_TOTAL];
    ops::terrain_chunk_create(&mut w, &mut hooks, V2 { x: 0, y: 0 }, blocks).unwrap();
    w
}

#[test]
fn placement_collision() {
    let mut w = world_with_chunk();
    let mut hooks: Vec<HookEvent> = Vec::new();
    let s1 = ops::structure_create(&mut w, &mut hooks, V3 { x: 0, y: 0, z: 0 }, 0).unwrap();
    let r2 = ops::structure_create(&mut w, &mut hooks, V3 { x: 0, y: 0, z: 0 }, 1);
    assert!(r2.is_err());
    let listed = w.chunk_structures(V2 { x: 0, y: 0 }).unwrap().clone();
    assert_eq!(listed, vec![s1.0]);
}

#[test]
fn placement_needs_loaded_chunk() {
    let mut w = World::new(test_data());
    let mut hooks: Vec<HookEvent> = Vec::new();
    let r = ops::structure_create(&mut w, &mut hooks, V3 { x: 0, y: 0, z: 0 }, 0);
    assert!(r.is_err());
}

#[test]
fn structure_destroy_clears_index() {
    let mut w = world_with_chunk();
    let mut hooks: Vec<HookEvent> = Vec::new();
    let s1 = ops::structure_create(&mut w, &mut hooks, V3 { x: 0, y: 0, z: 0 }, 0).unwrap();
    ops::structure_destroy(&mut w, &mut hooks, s1).unwrap();
    let listed = w.chunk_structures(V2 { x: 0, y: 0 }).unwrap().clone();
    assert!(listed.is_empty());
    let r2 = ops::structure_create(&mut w, &mut hooks, V3 { x: 0, y: 0, z: 0 }, 1);
    assert!(r2.is_ok());
}

#[test]
fn cascading_destroy() {
    let mut w = World::new(test_data());
    let mut hooks: Vec<HookEvent> = Vec::new();
    let c = ops::client_create(&mut w, &mut hooks, "alice", (0, 0)).unwrap();
    let e = ops::entity_create(&mut w, &mut hooks, V3 { x: 0, y: 0, z: 0 }, 0, 0).unwrap();
    ops::entity_attach(&mut w, e, EntityAttachment::Client(c)).unwrap();
    let i = ops::inventory_create(&mut w, &mut hooks).unwrap();
    ops::inventory_attach(&mut w, i, InventoryAttachment::Entity(e)).unwrap();
    hooks.clear();
    ops::client_destroy(&mut w, &mut hooks, c).unwrap();
    assert_eq!(
        hooks,
        vec![
            HookEvent::EntityDestroy(e),
            HookEvent::InventoryDestroy(i),
            HookEvent::ClientDestroy(c),
        ]
    );
    assert!(w.get_client(c).is_none());
    assert!(w.get_entity(e).is_none());
    assert!(w.get_inventory(i).is_none());
}

#[test]
fn entity_chunk_attachment_rejected() {
    let mut w = World::new(test_data());
    let mut hooks: Vec<HookEvent> = Vec::new();
    let e = ops::entity_create(&mut w, &mut hooks, V3 { x: 0, y: 0, z: 0 }, 0, 0).unwrap();
    let r = ops::entity_attach(&mut w, e, EntityAttachment::Chunk);
    assert_eq!(r.unwrap_err(), "EntityAttachment::Chunk is not yet supported");
}

#[test]
fn pawn_follows_attach() {
    let mut w = World::new(test_data());
    let mut hooks: Vec<HookEvent> = Vec::new();
    let c = ops::client_create(&mut w, &mut hooks, "bob", (0, 0)).unwrap();
    let e = ops::entity_create(&mut w, &mut hooks, V3 { x: 0, y: 0, z: 0 }, 0, 0).unwrap();
    let prev = ops::client_set_pawn(&mut w, &mut hooks, c, e).unwrap();
    assert_eq!(prev, None);
    assert_eq!(w.get_client(c).unwrap().pawn, Some(e));
    let prev2 = ops::client_clear_pawn(&mut w, &mut hooks, c).unwrap();
    assert_eq!(prev2, Some(e));
    assert_eq!(w.get_client(c).unwrap().pawn, None);
}

#[test]
fn inventory_round_trip() {
    let mut w = World::new(test_data());
    let mut hooks: Vec<HookEvent> = Vec::new();
    let i = ops::inventory_create(&mut w, &mut hooks).unwrap();
    let up = ops::inventory_update(&mut w, &mut hooks, i, 3, 5).unwrap();
    assert_eq!(up, 5);
    let down = ops::inventory_update(&mut w, &mut hooks, i, 3, -5).unwrap();
    assert_eq!(down, 0);
    assert!(w.get_inventory(i).unwrap().contents.get(3).is_none());
}

#[test]
fn inventory_saturates() {
    let mut w = World::new(test_data());
    let mut hooks: Vec<HookEvent> = Vec::new();
    let i = ops::inventory_create(&mut w, &mut hooks).unwrap();
    let up = ops::inventory_update(&mut w, &mut hooks, i, 3, 300).unwrap();
    assert_eq!(up, 255);
    let down = ops::inventory_update(&mut w, &mut hooks, i, 3, -300).unwrap();
    assert_eq!(down, 0);
}

#[test]
fn inventory_update_hook() {
    let mut w = World::new(test_data());
    let mut hooks: Vec<HookEvent> = Vec::new();
    let i = ops::inventory_create(&mut w, &mut hooks).unwrap();
    hooks.clear();
    ops::inventory_update(&mut w, &mut hooks, i, 7, 2).unwrap();
    assert_eq!(hooks, vec![HookEvent::InventoryUpdate(i, 7, 0, 2)]);
}

#[test]
fn unknown_ids_fail() {
    let mut w = World::new(test_data());
    let mut hooks: Vec<HookEvent> = Vec::new();
    assert!(ops::client_destroy(&mut w, &mut hooks, ClientId(9)).is_err());
    assert!(ops::entity_destroy(&mut w, &mut hooks, EntityId(9)).is_err());
    assert!(ops::inventory_destroy(&mut w, &mut hooks, InventoryId(9)).is_err());
    assert!(ops::inventory_update(&mut w, &mut hooks, InventoryId(9), 0, 1).is_err());
}

#[test]
fn stable_id_round_trip() {
    let mut m: StableIdMap<u32> = StableIdMap::new(100);
    let t = m.insert(42).unwrap();
    let s = m.assign_stable(t);
    assert_ne!(s, 0);
    assert_eq!(m.transient_of(s), Some(t));
    let s2 = m.assign_stable(t);
    assert_eq!(s, s2);
    let taken = m.remove(t);
    assert_eq!(taken, Some(42));
    assert_eq!(m.transient_of(s), None);
}

#[test]
fn stable_id_gone_after_client_destroy() {
    let mut w = World::new(test_data());
    let mut hooks: Vec<HookEvent> = Vec::new();
    let c = ops::client_create(&mut w, &mut hooks, "frank", (0, 0)).unwrap();
    let s = w.clients.assign_stable(c.0 as u32);
    assert_eq!(w.clients.transient_of(s), Some(c.0 as u32));
    ops::client_destroy(&mut w, &mut hooks, c).unwrap();
    assert_eq!(w.clients.transient_of(s), None);
}

#[test]
fn stable_id_survives_other_ops() {
    let mut w = World::new(test_data());
    let mut hooks: Vec<HookEvent> = Vec::new();
    let c = ops::client_create(&mut w, &mut hooks, "grace", (0, 0)).unwrap();
    let s = w.clients.assign_stable(c.0 as u32);
    let e = ops::entity_create(&mut w, &mut hooks, V3 { x: 0, y: 0, z: 0 }, 0, 0).unwrap();
    ops::client_set_pawn(&mut w, &mut hooks, c, e).unwrap();
    let i = ops::inventory_create(&mut w, &mut hooks).unwrap();
    ops::inventory_update(&mut w, &mut hooks, i, 1, 3).unwrap();
    assert_eq!(w.clients.transient_of(s), Some(c.0 as u32));
}

#[test]
fn stable_ids_not_reused() {
    let mut m: StableIdMap<u32> = StableIdMap::new(100);
    let t1 = m.insert(1).unwrap();
    let s1 = m.assign_stable(t1);
    m.remove(t1);
    let t2 = m.insert(2).unwrap();
    let s2 = m.assign_stable(t2);
    assert_ne!(s1, s2);
}

#[test]
fn chunk_destroy_cascades_structures() {
    let mut w = world_with_chunk();
    let mut hooks: Vec<HookEvent> = Vec::new();
    let s1 = ops::structure_create(&mut w, &mut hooks, V3 { x: 0, y: 0, z: 0 }, 0).unwrap();
    ops::structure_attach(&mut w, s1, backend::world::StructureAttachment::Chunk).unwrap();
    hooks.clear();
    ops::terrain_chunk_destroy(&mut w, &mut hooks, V2 { x: 0, y: 0 }).unwrap();
    assert!(w.get_structure(s1).is_none());
    assert!(w.get_terrain_chunk(V2 { x: 0, y: 0 }).is_none());
    assert!(matches!(hooks.last(), Some(HookEvent::TerrainChunkDestroy(_))));
}
