//! Wire-protocol message shapes, as plain values.  Framing and byte-level
//! encoding live in the host program; the engine works on these enums.

use vstd::prelude::*;
use crate::types::{LocalTime, AnimId, EntityId};

verus! {

/// Motion in per-client local coordinates, as sent on the wire.
#[derive(Clone, Copy, PartialEq, Eq, Debug)]
pub struct WireMotion {
    pub start_time: LocalTime,
    pub end_time: LocalTime,
    pub start_pos: (u16, u16, u16),
    pub end_pos: (u16, u16, u16),
}

#[derive(Clone, Copy, PartialEq, Eq, Debug)]
pub struct InitData {
    pub entity_id: u32,
    pub camera_pos: (i16, i16),
    pub chunks: u16,
    pub entities: u16,
}

pub enum Request {
    GetTerrain,
    UpdateMotion(WireMotion),
    Ping(u16),
    Input(LocalTime, u16),
    Login([u32; 4], String),
    Action(LocalTime, u32),
    AddClient,
    RemoveClient,
    BadMessage(u16),
}

pub enum Response {
    Pong(u16, LocalTime),
    Init(InitData),
    EntityUpdate(EntityId, WireMotion, AnimId),
    TerrainChunk(u16, Vec<u8>),
    UnloadChunk(u16),
    ClientRemoved,
    BadMessage(u16),
}

} // verus!
