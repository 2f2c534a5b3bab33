//! The engine loop's decision core: request and wake dispatch over the
//! world, the wake queue and an outgoing-message buffer.  The host program
//! owns the channels and the clock; it feeds requests and due wakes in and
//! drains the outbox and hook events after every call.

use vstd::prelude::*;
use crate::types::{
    Time, LocalTime, ClientId, EntityId, InputBits, ToGlobal, ToLocal, AnimId,
};
use crate::geom::{V2, V3, Region2, div_floor};
use crate::world::{World, Motion, EntityAttachment, ViewState, COORD_LIMIT};
use crate::world::ops;
use crate::world::ops::OpResult;
use crate::hooks::HookEvent;
use crate::timer::WakeQueue;
use crate::msg::{Request, Response, WireMotion, InitData};

verus! {

/// Side of the square ring of per-client chunk slots (a power of two).
pub const LOCAL_SIZE: i32 = 8;

/// Pixels per tile; a chunk spans `CHUNK_SIZE * TILE_SIZE` pixels.
pub const TILE_SIZE: i32 = 32;

/// Pixels per chunk side.
pub const CHUNK_PX: i32 = 512;

/// Interval between view-region rechecks, in milliseconds.
pub const VIEW_RECHECK_MS: i64 = 1000;

#[derive(Clone, Copy, PartialEq, Eq, Structural, Debug)]
pub enum WakeReason {
    HandleInput(ClientId, InputBits),
    HandleAction(ClientId, u32),
    PhysicsUpdate(ClientId),
    CheckView(ClientId),
}

/// The chunk containing a pixel position.
pub open spec fn spec_base_chunk(p: V3) -> V2 {
    V2 {
        x: ((p.x as int) / (CHUNK_PX as int)) as i32,
        y: ((p.y as int) / (CHUNK_PX as int)) as i32,
    }
}

pub fn base_chunk(p: V3) -> (r: V2)
    requires
        -2 * COORD_LIMIT <= p.x <= 2 * COORD_LIMIT,
        -2 * COORD_LIMIT <= p.y <= 2 * COORD_LIMIT,
    ensures
        r == spec_base_chunk(p),
{
    proof {
        crate::geom::lemma_div_in_i32_range(p.x as int, CHUNK_PX as int);
        crate::geom::lemma_div_in_i32_range(p.y as int, CHUNK_PX as int);
    }
    V2 { x: div_floor(p.x, CHUNK_PX), y: div_floor(p.y, CHUNK_PX) }
}

/// Euclidean residue of `v` in the ring of `LOCAL_SIZE` chunk slots.
pub open spec fn spec_ring(v: int) -> int {
    v % (LOCAL_SIZE as int)
}

/// The 16-bit ring slot index of chunk `(cx, cy)` under `offset`.
pub open spec fn spec_chunk_to_idx(cx: int, cy: int, off: (u8, u8)) -> int {
    spec_ring(cy + off.1) * LOCAL_SIZE + spec_ring(cx + off.0)
}

/// Per-client chunk slot index: both coordinates are shifted by the client's
/// chunk offset and wrapped into the ring.
pub fn chunk_to_idx(cx: i32, cy: i32, offset: (u8, u8)) -> (r: u16)
    ensures
        r == spec_chunk_to_idx(cx as int, cy as int, offset),
{
    let vx: i64 = cx as i64 + offset.0 as i64;
    let vy: i64 = cy as i64 + offset.1 as i64;
    let lx = vx & (LOCAL_SIZE as i64 - 1);
    let ly = vy & (LOCAL_SIZE as i64 - 1);
    proof {
        lemma_mask_is_mod(vx);
        lemma_mask_is_mod(vy);
    }
    (ly * (LOCAL_SIZE as i64) + lx) as u16
}

/// Masking with `LOCAL_SIZE - 1` computes the Euclidean residue mod the
/// ring size.
proof fn lemma_mask_is_mod(v: i64)
    requires
        -0x7000_0000_0000 <= v <= 0x7000_0000_0000,
    ensures
        (v & 7) == (v as int) % 8,
        0 <= (v & 7) < 8,
{
    assert((v & 7) == ((v % 8 + 8) % 8)) by (bit_vector);
    vstd::arithmetic::div_mod::lemma_mod_bound(v as int, 8);
    assert(((v as int) % 8 + 8) % 8 == (v as int) % 8) by {
        vstd::arithmetic::div_mod::lemma_mod_add_multiples_vanish((v as int) % 8, 8);
        vstd::arithmetic::div_mod::lemma_mod_twice(v as int, 8);
    }
}

/// Converts an entity's motion to wire coordinates: every field is the
/// 16-bit truncation of its global value.
pub fn entity_motion(now: Time, motion: Motion, offset: (u8, u8)) -> (r: WireMotion)
    requires
        motion.in_bounds(),
        -0x4000_0000_0000_0000 <= motion.start_time <= 0x4000_0000_0000_0000,
    ensures
        r == spec_wire_motion(motion),
    {
    let start_local = motion.start_time.to_local();
    let end_local = (motion.start_time + motion.duration as i64).to_local();
    WireMotion {
        start_time: start_local,
        end_time: end_local,
        start_pos: pos_to_local(motion.start_pos),
        end_pos: pos_to_local(motion.end_pos),
    }
}

/// Truncates a world pixel position to local wire coordinates.
fn pos_to_local(p: V3) -> (r: (u16, u16, u16))
    ensures
        r.0 as int == (p.x as int) % 0x10000,
        r.1 as int == (p.y as int) % 0x10000,
        r.2 as int == (p.z as int) % 0x10000,
{
    proof {
        lemma_i32_low16(p.x);
        lemma_i32_low16(p.y);
        lemma_i32_low16(p.z);
    }
    (
        #[verifier::truncate] (p.x as u16),
        #[verifier::truncate] (p.y as u16),
        #[verifier::truncate] (p.z as u16),
    )
}

proof fn lemma_i32_low16(v: i32)
    ensures
        (v as u16) as int == (v as int) % 0x10000,
{
    assert((v as u16) == ((v % 0x10000 + 0x10000) % 0x10000) as u16) by (bit_vector);
    vstd::arithmetic::div_mod::lemma_mod_bound(v as int, 0x10000);
    vstd::arithmetic::div_mod::lemma_mod_add_multiples_vanish(v as int % 0x10000, 0x10000);
    vstd::arithmetic::div_mod::lemma_mod_twice(v as int, 0x10000);
}


/// Direction encoded in the low four input bits: +x, -x, +y, -y.
pub open spec fn spec_move_dx(input: InputBits) -> int {
    (if input.0 & 1 != 0 {
        1int
    } else {
        0int
    }) - (if input.0 & 2 != 0 {
        1int
    } else {
        0int
    })
}

pub open spec fn spec_move_dy(input: InputBits) -> int {
    (if input.0 & 4 != 0 {
        1int
    } else {
        0int
    }) - (if input.0 & 8 != 0 {
        1int
    } else {
        0int
    })
}

/// Coordinates are clamped into the world's coordinate bounds.
pub open spec fn spec_clamp_coord(v: int) -> int {
    if v < -COORD_LIMIT {
        -COORD_LIMIT as int
    } else if v > COORD_LIMIT {
        COORD_LIMIT as int
    } else {
        v
    }
}

/// The motion a fresh input assigns to the pawn: one tile of travel in the
/// pressed direction over half a second, or standing still.
pub open spec fn spec_input_motion(start: V3, input: InputBits, now: Time) -> Motion {
    let dx = spec_move_dx(input);
    let dy = spec_move_dy(input);
    if dx == 0 && dy == 0 {
        Motion { start_pos: start, end_pos: start, start_time: now, duration: 0 }
    } else {
        Motion {
            start_pos: start,
            end_pos: V3 {
                x: spec_clamp_coord(start.x + dx * TILE_SIZE) as i32,
                y: spec_clamp_coord(start.y + dy * TILE_SIZE) as i32,
                z: start.z,
            },
            start_time: now,
            duration: 500,
        }
    }
}

/// The wire form of a motion: times and positions truncated to 16 bits
/// (positions are global; the per-client offset shifts only chunk indices).
pub open spec fn spec_wire_motion(motion: Motion) -> WireMotion {
    WireMotion {
        start_time: ((motion.start_time as int) % 0x10000) as u16,
        end_time: (((motion.start_time + motion.duration) as int) % 0x10000) as u16,
        start_pos: (
            ((motion.start_pos.x as int) % 0x10000) as u16,
            ((motion.start_pos.y as int) % 0x10000) as u16,
            ((motion.start_pos.z as int) % 0x10000) as u16,
        ),
        end_pos: (
            ((motion.end_pos.x as int) % 0x10000) as u16,
            ((motion.end_pos.y as int) % 0x10000) as u16,
            ((motion.end_pos.z as int) % 0x10000) as u16,
        ),
    }
}

/// One `EntityUpdate` per live client slot below `upto`, in slot order.
pub open spec fn spec_broadcast_msgs(
    w: World,
    eid: EntityId,
    wm: WireMotion,
    anim: AnimId,
    upto: int,
) -> Seq<(ClientId, Response)>
    decreases upto,
{
    if upto <= 0 {
        Seq::empty()
    } else {
        let prev = spec_broadcast_msgs(w, eid, wm, anim, upto - 1);
        if w.client_live(upto - 1) {
            prev.push(
                (ClientId((upto - 1) as u16), Response::EntityUpdate(eid, wm, anim)),
            )
        } else {
            prev
        }
    }
}

/// A chunk left behind by a view change.
pub open spec fn spec_exited(old_r: Region2, new_r: Region2, p: V2) -> bool {
    old_r.contains(p) && !new_r.contains(p)
}

/// A chunk newly covered by a view change.
pub open spec fn spec_entered(old_r: Region2, new_r: Region2, p: V2) -> bool {
    new_r.contains(p) && !old_r.contains(p)
}

/// The payload a `TerrainChunk` message carries for chunk `p`: the RLE16
/// encoding of a loaded chunk's blocks, or empty for an unloaded one.
pub open spec fn spec_chunk_payload_ok(w: World, p: V2, data: Seq<u8>) -> bool {
    match w.chunk_at(p) {
        Some(tc) => crate::rle16::spec_rle16_decode(data) == Some(tc.blocks@),
        None => data.len() == 0,
    }
}

/// Clamps a coordinate into the world's coordinate bounds.
fn clamp_coord(v: i32) -> (r: i32)
    ensures
        r as int == spec_clamp_coord(v as int),
{
    if v < -COORD_LIMIT {
        -COORD_LIMIT
    } else if v > COORD_LIMIT {
        COORD_LIMIT
    } else {
        v
    }
}

/// What a successful login leaves behind: a fresh client under `cid` with
/// the requested name, the `Init` reply, and the first view check armed.
pub open spec fn spec_login_post(
    pre: Server,
    post: Server,
    now: Time,
    from: ClientId,
    name: Seq<char>,
    cid: ClientId,
) -> bool {
    &&& !pre.world.client_live(cid.0 as int)
    &&& post.world.client_live(cid.0 as int)
    &&& post.world.client_at(cid.0 as int).name@ == name
    &&& post.world.client_at(cid.0 as int).pawn == None::<EntityId>
    &&& crate::world::ops::clients_same_except(pre.world, post.world, cid.0 as int)
    &&& post.world.entities == pre.world.entities
    &&& post.world.structures == pre.world.structures
    &&& post.world.inventories == pre.world.inventories
    &&& post.world.terrain_chunks == pre.world.terrain_chunks
    &&& post.world.structures_by_chunk == pre.world.structures_by_chunk
    &&& post.world.data == pre.world.data
    &&& post.outbox@ == pre.outbox@.push(
        (
            from,
            Response::Init(
                InitData {
                    entity_id: cid.0 as u32,
                    camera_pos: (0, 0),
                    chunks: 64,
                    entities: 1,
                },
            ),
        ),
    )
    &&& crate::timer::wake_pushed(
        pre.wake_queue.view_seq(),
        post.wake_queue.view_seq(),
        (now + VIEW_RECHECK_MS) as i64,
        WakeReason::CheckView(cid),
    )
    &&& post.hooks@ == pre.hooks@.push(crate::hooks::HookEvent::ClientCreate(cid))
}

/// A message a view change may legitimately send: the unload of an exited
/// chunk or the terrain of an entered one, with its ring index.
pub open spec fn view_msg_ok(
    m: (ClientId, Response),
    cid: ClientId,
    w: World,
    old_r: Region2,
    new_r: Region2,
    off: (u8, u8),
) -> bool {
    m.0 == cid && (match m.1 {
        Response::UnloadChunk(idx) => exists|p: V2|
            #![trigger spec_exited(old_r, new_r, p)]
            spec_exited(old_r, new_r, p) && idx as int == spec_chunk_to_idx(
                p.x as int,
                p.y as int,
                off,
            ),
        Response::TerrainChunk(idx, data) => exists|p: V2|
            #![trigger spec_entered(old_r, new_r, p)]
            spec_entered(old_r, new_r, p) && idx as int == spec_chunk_to_idx(
                p.x as int,
                p.y as int,
                off,
            ) && spec_chunk_payload_ok(w, p, data@),
        _ => false,
    })
}

/// Every message appended past `base` is a legitimate view-diff message.
pub open spec fn check_view_sound(
    out: Seq<(ClientId, Response)>,
    base: int,
    cid: ClientId,
    w: World,
    old_r: Region2,
    new_r: Region2,
    off: (u8, u8),
) -> bool {
    forall|k: int|
        base <= k < out.len() ==> view_msg_ok(#[trigger] out[k], cid, w, old_r, new_r, off)
}

/// The unload of chunk `p` has been sent.
pub open spec fn unload_sent(
    out: Seq<(ClientId, Response)>,
    base: int,
    cid: ClientId,
    p: V2,
    off: (u8, u8),
) -> bool {
    exists|k: int|
        #![trigger out[k]]
        base <= k < out.len() && out[k] == (
        cid,
        Response::UnloadChunk(spec_chunk_to_idx(p.x as int, p.y as int, off) as u16),
        )
}

/// The terrain of chunk `p` has been sent, with a payload that decodes to
/// the chunk's blocks (or empty for an unloaded chunk).
pub open spec fn terrain_sent(
    out: Seq<(ClientId, Response)>,
    base: int,
    cid: ClientId,
    w: World,
    p: V2,
    off: (u8, u8),
) -> bool {
    exists|k: int|
        #![trigger out[k]]
        base <= k < out.len() && out[k].0 == cid && (match out[k].1 {
            Response::TerrainChunk(idx, data) => idx as int == spec_chunk_to_idx(
                p.x as int,
                p.y as int,
                off,
            ) && spec_chunk_payload_ok(w, p, data@),
            _ => false,
        })
}

/// Appending a legitimate message keeps the buffer sound.
proof fn lemma_msgs_grow_sound(
    pre: Seq<(ClientId, Response)>,
    post: Seq<(ClientId, Response)>,
    base: int,
    cid: ClientId,
    w: World,
    old_r: Region2,
    new_r: Region2,
    off: (u8, u8),
)
    requires
        0 <= base <= pre.len(),
        post.len() == pre.len() + 1,
        forall|k: int| 0 <= k < pre.len() ==> post[k] == pre[k],
        check_view_sound(pre, base, cid, w, old_r, new_r, off),
        view_msg_ok(post[post.len() - 1], cid, w, old_r, new_r, off),
    ensures
        check_view_sound(post, base, cid, w, old_r, new_r, off),
{
    assert forall|k: int| base <= k < post.len() implies view_msg_ok(
        #[trigger] post[k],
        cid,
        w,
        old_r,
        new_r,
        off,
    ) by {
        if k < pre.len() {
            assert(post[k] == pre[k]);
            assert(view_msg_ok(pre[k], cid, w, old_r, new_r, off));
        }
    }
}

/// Sent messages stay sent as the buffer grows.
proof fn lemma_sent_grows(
    pre: Seq<(ClientId, Response)>,
    post: Seq<(ClientId, Response)>,
    base: int,
    cid: ClientId,
    w: World,
    p: V2,
    off: (u8, u8),
)
    requires
        0 <= base,
        pre.len() <= post.len(),
        forall|k: int| 0 <= k < pre.len() ==> post[k] == pre[k],
    ensures
        unload_sent(pre, base, cid, p, off) ==> unload_sent(post, base, cid, p, off),
        terrain_sent(pre, base, cid, w, p, off) ==> terrain_sent(post, base, cid, w, p, off),
{
    if unload_sent(pre, base, cid, p, off) {
        let k = choose|k: int|
            base <= k < pre.len() && pre[k] == (
            cid,
            Response::UnloadChunk(spec_chunk_to_idx(p.x as int, p.y as int, off) as u16),
            );
        assert(post[k] == pre[k]);
    }
    if terrain_sent(pre, base, cid, w, p, off) {
        let k = choose|k: int|
            base <= k < pre.len() && pre[k].0 == cid && (match pre[k].1 {
                Response::TerrainChunk(idx, data) => idx as int == spec_chunk_to_idx(
                    p.x as int,
                    p.y as int,
                    off,
                ) && spec_chunk_payload_ok(w, p, data@),
                _ => false,
            });
        assert(post[k] == pre[k]);
    }
}

/// The engine's mutable state: the world, the wake queue, the outgoing
/// message buffer, and the hook events not yet delivered to the observer.
pub struct Server {
    pub world: World,
    pub wake_queue: WakeQueue<WakeReason>,
    pub outbox: Vec<(ClientId, Response)>,
    pub hooks: Vec<HookEvent>,
}

/// Bounds under which timestamps stay clear of `i64` overflow.
pub open spec fn now_ok(now: Time) -> bool {
    0 <= now <= 0x2000_0000_0000_0000
}

/// What a physics broadcast leaves behind: the world and hooks untouched;
/// for a live client with a pawn, one `EntityUpdate` per live client in
/// slot order and a re-armed `PhysicsUpdate` at the motion's end when it is
/// moving; otherwise nothing.
pub open spec fn spec_physics_post(pre: Server, post: Server, now: Time, cid: ClientId) -> bool {
    &&& post.world == pre.world
    &&& post.hooks == pre.hooks
    &&& if pre.world.client_live(cid.0 as int) && pre.world.client_at(cid.0 as int).pawn
        is Some {
        let eid = pre.world.client_at(cid.0 as int).pawn->Some_0;
        let motion = pre.world.entity_at(eid.0 as int).motion;
        let anim = pre.world.entity_at(eid.0 as int).anim;
        &&& post.outbox@ == pre.outbox@ + spec_broadcast_msgs(
            pre.world,
            eid,
            spec_wire_motion(motion),
            anim,
            pre.world.clients.spec_len(),
        )
        &&& if motion.start_pos != motion.end_pos {
            crate::timer::wake_pushed(
                pre.wake_queue.view_seq(),
                post.wake_queue.view_seq(),
                (motion.start_time + motion.duration) as i64,
                WakeReason::PhysicsUpdate(cid),
            )
        } else {
            post.wake_queue == pre.wake_queue
        }
    } else {
        post == pre
    }
}

/// What applying fresh input bits leaves behind: for a live client with a
/// pawn and differing bits, the stored bits and the pawn's restarted
/// motion; otherwise nothing.
pub open spec fn spec_input_applied(
    pre: Server,
    post: Server,
    now: Time,
    cid: ClientId,
    input: InputBits,
    changed: bool,
) -> bool {
    &&& post.outbox == pre.outbox
    &&& post.hooks == pre.hooks
    &&& post.wake_queue == pre.wake_queue
    &&& changed == (pre.world.client_live(cid.0 as int) && pre.world.client_at(
        cid.0 as int,
    ).current_input != input && pre.world.client_at(cid.0 as int).pawn is Some)
    &&& if changed {
        let eid = pre.world.client_at(cid.0 as int).pawn->Some_0;
        let start = pre.world.entity_at(eid.0 as int).motion.spec_pos(now);
        &&& post.world.wf()
        &&& post.world.client_live(cid.0 as int)
        &&& post.world.client_at(cid.0 as int) == (crate::world::Client {
            current_input: input,
            ..pre.world.client_at(cid.0 as int)
        })
        &&& crate::world::ops::clients_same_except(pre.world, post.world, cid.0 as int)
        &&& post.world.entity_live(eid.0 as int)
        &&& post.world.entity_at(eid.0 as int) == (crate::world::Entity {
            motion: spec_input_motion(start, input, now),
            ..pre.world.entity_at(eid.0 as int)
        })
        &&& crate::world::ops::entities_same_except(pre.world, post.world, eid.0 as int)
        &&& post.world.inventories == pre.world.inventories
        &&& post.world.structures == pre.world.structures
        &&& post.world.terrain_chunks == pre.world.terrain_chunks
        &&& post.world.structures_by_chunk == pre.world.structures_by_chunk
        &&& post.world.data == pre.world.data
    } else {
        post.world == pre.world
    }
}

/// What a view recheck leaves behind: for a live client with a pawn, the
/// view region recomputed around the pawn, one `UnloadChunk` per exited
/// chunk and one `TerrainChunk` per entered chunk (each carrying its ring
/// index and, for loads, the chunk's RLE16 terrain), and the next check
/// armed; for a vanished client, nothing.
pub open spec fn spec_check_view_post(pre: Server, post: Server, now: Time, cid: ClientId) -> bool {
    &&& post.hooks == pre.hooks
    &&& if pre.world.client_live(cid.0 as int) && pre.world.client_at(cid.0 as int).pawn
        is Some {
        let c = pre.world.client_at(cid.0 as int);
        let eid = c.pawn->Some_0;
        let pos = pre.world.entity_at(eid.0 as int).motion.spec_pos(now);
        let center = spec_base_chunk(
            V3 { x: (pos.x + 16) as i32, y: (pos.y + 16) as i32, z: pos.z },
        );
        let old_r = c.view_state.region;
        let new_r = ViewState::spec_region_for(center);
        let off = c.chunk_offset;
        let base = pre.outbox@.len() as int;
        &&& post.world.wf()
        &&& post.world.client_live(cid.0 as int)
        &&& post.world.client_at(cid.0 as int) == (crate::world::Client {
            view_state: ViewState { region: new_r },
            ..c
        })
        &&& crate::world::ops::clients_same_except(pre.world, post.world, cid.0 as int)
        &&& post.world.entities == pre.world.entities
        &&& post.world.inventories == pre.world.inventories
        &&& post.world.structures == pre.world.structures
        &&& post.world.terrain_chunks == pre.world.terrain_chunks
        &&& post.world.structures_by_chunk == pre.world.structures_by_chunk
        &&& post.world.data == pre.world.data
        &&& crate::timer::wake_pushed(
            pre.wake_queue.view_seq(),
            post.wake_queue.view_seq(),
            (now + VIEW_RECHECK_MS) as i64,
            WakeReason::CheckView(cid),
        )
        &&& base <= post.outbox@.len()
        &&& post.outbox@.take(base) == pre.outbox@
        // soundness: every sent message is the unload of an exited chunk or
        // the terrain of an entered one, with its ring index
        &&& (forall|k: int|
            base <= k < post.outbox@.len() ==> #[trigger] post.outbox@[k].0 == cid && ((
            match post.outbox@[k].1 {
                Response::UnloadChunk(idx) => exists|p: V2|
                    #![trigger spec_exited(old_r, new_r, p)]
                    spec_exited(old_r, new_r, p) && idx as int == spec_chunk_to_idx(
                        p.x as int,
                        p.y as int,
                        off,
                    ),
                Response::TerrainChunk(idx, data) => exists|p: V2|
                    #![trigger spec_entered(old_r, new_r, p)]
                    spec_entered(old_r, new_r, p) && idx as int == spec_chunk_to_idx(
                        p.x as int,
                        p.y as int,
                        off,
                    ) && spec_chunk_payload_ok(pre.world, p, data@),
                _ => false,
            })))
        // completeness: every exited chunk is unloaded and every entered
        // chunk is sent
        &&& (forall|p: V2|
            #[trigger] spec_exited(old_r, new_r, p) ==> exists|k: int|
                #![trigger post.outbox@[k]]
                base <= k < post.outbox@.len() && post.outbox@[k] == (
                cid,
                Response::UnloadChunk(
                    spec_chunk_to_idx(p.x as int, p.y as int, off) as u16,
                ),
                ))
        &&& (forall|p: V2|
            #[trigger] spec_entered(old_r, new_r, p) ==> exists|k: int|
                #![trigger post.outbox@[k]]
                base <= k < post.outbox@.len() && post.outbox@[k].0 == cid && (
                match post.outbox@[k].1 {
                    Response::TerrainChunk(idx, data) => idx as int == spec_chunk_to_idx(
                        p.x as int,
                        p.y as int,
                        off,
                    ) && spec_chunk_payload_ok(pre.world, p, data@),
                    _ => false,
                }))
    } else {
        post == pre
    }
}

impl Server {
    pub fn new(world: World) -> (r: Server)
        requires
            world.wf(),
        ensures
            r.world == world,
            r.world.wf(),
            r.wake_queue.wf(),
            r.wake_queue.view_seq().len() == 0,
            r.outbox@.len() == 0,
            r.hooks@.len() == 0,
    {
        Server { world, wake_queue: WakeQueue::new(), outbox: Vec::new(), hooks: Vec::new() }
    }

    /// Dispatches one client request.  `Ping` answers immediately; `Input`
    /// and `Action` schedule wakes no earlier than `now` (local times in the
    /// past are clamped up); `Login` creates the client and arms the first
    /// view check; `RemoveClient` tears the client down.  Deprecated or
    /// malformed opcodes are dropped.
    pub fn handle_req(&mut self, now: Time, client_id: ClientId, req: Request) -> (r: OpResult<()>)
        requires
            old(self).world.wf(),
            old(self).wake_queue.wf(),
            now_ok(now),
        ensures
            final(self).world.wf(),
            final(self).wake_queue.wf(),
            match req {
                Request::Ping(cookie) => final(self).world == old(self).world && final(self).outbox@ == old(self).outbox@.push(
                    (client_id, Response::Pong(cookie, (now as int % 0x10000) as u16)),
                ),
                Request::Input(t, bits) => {
                    &&& final(self).world == old(self).world
                    &&& final(self).outbox == old(self).outbox
                    &&& exists|gt: Time|
                        #![trigger t.to_global_ens(now, gt)]
                        {
                            &&& t.to_global_ens(now, gt)
                            &&& crate::timer::wake_pushed(
                                old(self).wake_queue.view_seq(),
                                final(self).wake_queue.view_seq(),
                                if gt >= now {
                                    gt
                                } else {
                                    now
                                },
                                WakeReason::HandleInput(client_id, InputBits(bits)),
                            )
                        }
                },
                Request::Action(t, bits) => {
                    &&& final(self).world == old(self).world
                    &&& final(self).outbox == old(self).outbox
                    &&& exists|gt: Time|
                        #![trigger t.to_global_ens(now, gt)]
                        {
                            &&& t.to_global_ens(now, gt)
                            &&& crate::timer::wake_pushed(
                                old(self).wake_queue.view_seq(),
                                final(self).wake_queue.view_seq(),
                                if gt >= now {
                                    gt
                                } else {
                                    now
                                },
                                WakeReason::HandleAction(client_id, bits),
                            )
                        }
                },
                Request::GetTerrain => *final(self) == *old(self),
                Request::UpdateMotion(_) => *final(self) == *old(self),
                Request::AddClient => *final(self) == *old(self),
                Request::BadMessage(_) => *final(self) == *old(self),
                Request::Login(_secret, name) => match r {
                    Ok(()) => exists|cid: ClientId| #[trigger] spec_login_post(
                        *old(self),
                        *final(self),
                        now,
                        client_id,
                        name@,
                        cid,
                    ),
                    Err(_) => {
                        &&& final(self).world == old(self).world
                        &&& final(self).wake_queue == old(self).wake_queue
                        &&& final(self).outbox == old(self).outbox
                        &&& final(self).hooks@ == old(self).hooks@
                        &&& old(self).world.clients.spec_len() == old(
                            self,
                        ).world.clients.spec_limit()
                    },
                },
                Request::RemoveClient => match r {
                    Ok(()) => {
                        &&& old(self).world.client_live(client_id.0 as int)
                        &&& !final(self).world.client_live(client_id.0 as int)
                        &&& crate::world::ops::clients_same_except(
                            old(self).world,
                            final(self).world,
                            client_id.0 as int,
                        )
                        &&& (forall|e2: int|
                            0 <= e2 <= u32::MAX && crate::idset::contains_id(
                                old(self).world.client_at(client_id.0 as int).child_entities@,
                                e2 as u32,
                            ) ==> !final(self).world.entity_live(e2))
                        &&& final(self).world.structures == old(self).world.structures
                        &&& final(self).world.terrain_chunks == old(self).world.terrain_chunks
                        &&& final(self).outbox@ == old(self).outbox@.push(
                            (client_id, Response::ClientRemoved),
                        )
                        &&& final(self).wake_queue == old(self).wake_queue
                    },
                    Err(_) => {
                        &&& final(self).world == old(self).world
                        &&& final(self).wake_queue == old(self).wake_queue
                        &&& final(self).outbox == old(self).outbox
                        &&& final(self).hooks@ == old(self).hooks@
                        &&& !old(self).world.client_live(client_id.0 as int)
                    },
                },
            },
    {
        match req {
            Request::GetTerrain => Ok(()),
            Request::UpdateMotion(_m) => Ok(()),
            Request::AddClient => Ok(()),
            Request::BadMessage(_op) => Ok(()),
            Request::Ping(cookie) => {
                let local = now.to_local();
                self.outbox.push((client_id, Response::Pong(cookie, local)));
                Ok(())
            },
            Request::Input(t, bits) => {
                let gt = t.to_global(now);
                let time = if gt >= now {
                    gt
                } else {
                    now
                };
                self.wake_queue.push(time, WakeReason::HandleInput(client_id, InputBits(bits)));
                Ok(())
            },
            Request::Action(t, bits) => {
                let gt = t.to_global(now);
                let time = if gt >= now {
                    gt
                } else {
                    now
                };
                self.wake_queue.push(time, WakeReason::HandleAction(client_id, bits));
                Ok(())
            },
            Request::Login(_secret, name) => {
                let cid = match ops::client_create(
                    &mut self.world,
                    &mut self.hooks,
                    name.as_str(),
                    (0, 0),
                ) {
                    Ok(cid) => cid,
                    Err(m) => {
                        return Err(m);
                    },
                };
                let info = InitData {
                    entity_id: cid.0 as u32,
                    camera_pos: (0, 0),
                    chunks: 64,
                    entities: 1,
                };
                self.outbox.push((client_id, Response::Init(info)));
                self.wake_queue.push(now + VIEW_RECHECK_MS, WakeReason::CheckView(cid));
                proof {
                    assert(spec_login_post(*old(self), *self, now, client_id, name@, cid));
                }
                Ok(())
            },
            Request::RemoveClient => {
                match ops::client_destroy(&mut self.world, &mut self.hooks, client_id) {
                    Ok(()) => {},
                    Err(m) => {
                        return Err(m);
                    },
                }
                self.outbox.push((client_id, Response::ClientRemoved));
                Ok(())
            },
        }
    }

    /// Dispatches one due wake event.  Handlers for vanished clients return
    /// silently; `HandleInput` applies the bits and broadcasts the new
    /// motion; `PhysicsUpdate` re-broadcasts; `CheckView` recomputes the
    /// view region, unloading exited chunks and loading entered ones, and
    /// re-arms itself; `HandleAction` leaves dispatch of invalidated chunks
    /// to the hook events the acting op recorded.
    pub fn handle_wake(&mut self, now: Time, reason: WakeReason)
        requires
            old(self).world.wf(),
            old(self).wake_queue.wf(),
            now_ok(now),
        ensures
            final(self).world.wf(),
            final(self).wake_queue.wf(),
            match reason {
                WakeReason::HandleInput(cid, input) => exists|mid: Server, changed: bool|
                    {
                        &&& #[trigger] spec_input_applied(
                            *old(self),
                            mid,
                            now,
                            cid,
                            input,
                            changed,
                        )
                        &&& if changed {
                            spec_physics_post(mid, *final(self), now, cid)
                        } else {
                            *final(self) == mid
                        }
                    },
                WakeReason::PhysicsUpdate(cid) => spec_physics_post(
                    *old(self),
                    *final(self),
                    now,
                    cid,
                ),
                WakeReason::CheckView(cid) => spec_check_view_post(
                    *old(self),
                    *final(self),
                    now,
                    cid,
                ),
                WakeReason::HandleAction(_, _) => *final(self) == *old(self),
            },
    {
        match reason {
            WakeReason::HandleInput(cid, input) => {
                let updated = self.update_input(now, cid, input);
                let ghost mid = *self;
                if updated {
                    self.post_physics_update(now, cid);
                }
                proof {
                    assert(spec_input_applied(*old(self), mid, now, cid, input, updated));
                }
            },
            WakeReason::HandleAction(_cid, _bits) => {
                // actions run through the op layer elsewhere; the hook
                // events they record carry the chunk invalidations
            },
            WakeReason::PhysicsUpdate(cid) => {
                self.post_physics_update(now, cid);
            },
            WakeReason::CheckView(cid) => {
                self.check_view(now, cid);
            },
        }
    }

    /// Applies new input bits to the client's pawn: updates the stored bits
    /// and restarts the pawn's motion from its current position.  Returns
    /// whether anything changed.
    pub fn update_input(&mut self, now: Time, cid: ClientId, input: InputBits) -> (r: bool)
        requires
            old(self).world.wf(),
            old(self).wake_queue.wf(),
            now_ok(now),
        ensures
            final(self).world.wf(),
            final(self).wake_queue.wf(),
            spec_input_applied(*old(self), *final(self), now, cid, input, r),
    {
        let (pawn, old_input) = match self.world.get_client(cid) {
            Some(c) => (c.pawn, c.current_input),
            None => {
                return false;
            },
        };
        if old_input == input {
            return false;
        }
        proof {
            assert(old(self).world.client_live(cid.0 as int));
            assert(old(self).world.wf_client_obj(cid.0 as int));
        }
        let eid = match pawn {
            Some(e) => e,
            None => {
                return false;
            },
        };
        proof {
            assert(old(self).world.entity_live(eid.0 as int));
            assert(old(self).world.wf_entity_obj(eid.0 as int, None));
        }
        let pos = match self.world.get_entity(eid) {
            Some(e) => e.pos(now),
            None => {
                proof {
                    assert(false);
                }
                return false;
            },
        };
        let vx: i32 = (if input.0 & 1 != 0 {
            1
        } else {
            0
        }) - (if input.0 & 2 != 0 {
            1
        } else {
            0
        });
        let vy: i32 = (if input.0 & 4 != 0 {
            1
        } else {
            0
        }) - (if input.0 & 8 != 0 {
            1
        } else {
            0
        });
        let moving = vx != 0 || vy != 0;
        let end = if moving {
            V3 {
                x: clamp_coord(pos.x + vx * TILE_SIZE),
                y: clamp_coord(pos.y + vy * TILE_SIZE),
                z: pos.z,
            }
        } else {
            pos
        };
        let motion = Motion {
            start_pos: pos,
            end_pos: end,
            start_time: now,
            duration: if moving {
                500
            } else {
                0
            },
        };
        proof {
            assert(motion == spec_input_motion(
                old(self).world.entity_at(eid.0 as int).motion.spec_pos(now),
                input,
                now,
            ));
        }
        self.set_client_input_and_motion(cid, eid, input, motion);
        true
    }

    /// Writes the input bits and pawn motion back into the world.
    fn set_client_input_and_motion(
        &mut self,
        cid: ClientId,
        eid: EntityId,
        input: InputBits,
        motion: Motion,
    )
        requires
            old(self).world.wf(),
            old(self).wake_queue.wf(),
            old(self).world.client_live(cid.0 as int),
            old(self).world.entity_live(eid.0 as int),
            motion.in_bounds(),
            -0x4000_0000_0000_0000 <= motion.start_time <= 0x4000_0000_0000_0000,
        ensures
            final(self).world.wf(),
            final(self).wake_queue == old(self).wake_queue,
            final(self).outbox == old(self).outbox,
            final(self).hooks == old(self).hooks,
            final(self).world.client_live(cid.0 as int),
            final(self).world.client_at(cid.0 as int) == (crate::world::Client {
                current_input: input,
                ..old(self).world.client_at(cid.0 as int)
            }),
            crate::world::ops::clients_same_except(old(self).world, final(self).world, cid.0 as int),
            final(self).world.entity_live(eid.0 as int),
            final(self).world.entity_at(eid.0 as int) == (crate::world::Entity {
                motion,
                ..old(self).world.entity_at(eid.0 as int)
            }),
            crate::world::ops::entities_same_except(old(self).world, final(self).world, eid.0 as int),
            final(self).world.inventories == old(self).world.inventories,
            final(self).world.structures == old(self).world.structures,
            final(self).world.terrain_chunks == old(self).world.terrain_chunks,
            final(self).world.structures_by_chunk == old(self).world.structures_by_chunk,
            final(self).world.data == old(self).world.data,
    {
        let ghost wo = self.world;
        match self.world.clients.get_mut(cid.0 as u32) {
            Some(c) => {
                c.current_input = input;
            },
            None => {
                proof {
                    assert(false);
                }
            },
        }
        proof {
            assert(wo.client_live(cid.0 as int));
            assert(wo.wf_client_obj(cid.0 as int));
            lemma_client_input_preserves(wo, self.world, cid.0 as int);
        }
        let ghost wm = self.world;
        match self.world.entities.get_mut(eid.0) {
            Some(e) => {
                e.motion = motion;
                proof {
                    assert(wm.entity_live(eid.0 as int));
                    assert(wm.wf_entity_obj(eid.0 as int, None));
                }
            },
            None => {
                proof {
                    assert(false);
                }
            },
        }
        proof {
            lemma_entity_motion_preserves(wm, self.world, eid.0 as int, motion);
        }
    }

    /// Broadcasts the pawn's fresh motion to every connected client, and
    /// re-arms a physics update at the motion's end when it is moving.
    pub fn post_physics_update(&mut self, now: Time, cid: ClientId)
        requires
            old(self).world.wf(),
            old(self).wake_queue.wf(),
            now_ok(now),
        ensures
            final(self).world.wf(),
            final(self).wake_queue.wf(),
            spec_physics_post(*old(self), *final(self), now, cid),
    {
        let (eid, motion, anim) = match self.world.get_client(cid) {
            Some(c) => {
                match c.pawn {
                    Some(e) => {
                        proof {
                            assert(old(self).world.client_live(cid.0 as int));
                            assert(old(self).world.wf_client_obj(cid.0 as int));
                        }
                        match self.world.get_entity(e) {
                            Some(ent) => (e, ent.motion, ent.anim),
                            None => {
                                proof {
                                    assert(false);
                                }
                                return ;
                            },
                        }
                    },
                    None => {
                        return ;
                    },
                }
            },
            None => {
                return ;
            },
        };
        proof {
            assert(old(self).world.entity_live(eid.0 as int));
            assert(old(self).world.wf_entity_obj(eid.0 as int, None));
        }
        let wm = entity_motion(now, motion, (0, 0));
        let n = self.world.clients.len();
        proof {
            self.world.clients.lemma_len_le_limit();
            assert(self.outbox@ =~= old(self).outbox@ + spec_broadcast_msgs(
                old(self).world,
                eid,
                wm,
                anim,
                0,
            ));
        }
        let mut i: usize = 0;
        while i < n
            invariant
                self.world == old(self).world,
                self.wake_queue == old(self).wake_queue,
                self.hooks == old(self).hooks,
                self.world.wf(),
                self.wake_queue.wf(),
                wm == spec_wire_motion(motion),
                n == self.world.clients.spec_len(),
                n <= 0xFFFF,
                0 <= i <= n,
                self.outbox@ == old(self).outbox@ + spec_broadcast_msgs(
                    old(self).world,
                    eid,
                    wm,
                    anim,
                    i as int,
                ),
            decreases n - i,
        {
            let live = match self.world.clients.get(i as u32) {
                Some(_) => true,
                None => false,
            };
            if live {
                self.outbox.push((ClientId(i as u16), Response::EntityUpdate(eid, wm, anim)));
            }
            proof {
                assert(self.outbox@ =~= old(self).outbox@ + spec_broadcast_msgs(
                    old(self).world,
                    eid,
                    wm,
                    anim,
                    i as int + 1,
                ));
            }
            i += 1;
        }
        if !(motion.start_pos == motion.end_pos) {
            let end_time = motion.start_time + motion.duration as i64;
            self.wake_queue.push(end_time, WakeReason::PhysicsUpdate(cid));
        }
    }

    /// Recomputes the client's view region around its pawn; sends an
    /// `UnloadChunk` for each exited chunk and a `TerrainChunk` for each
    /// entered one, then re-arms the next check.
    pub fn check_view(&mut self, now: Time, cid: ClientId)
        requires
            old(self).world.wf(),
            old(self).wake_queue.wf(),
            now_ok(now),
        ensures
            final(self).world.wf(),
            final(self).wake_queue.wf(),
            spec_check_view_post(*old(self), *final(self), now, cid),
    {
        let (pawn, offset) = match self.world.get_client(cid) {
            Some(c) => (c.pawn, c.chunk_offset),
            None => {
                return ;
            },
        };
        proof {
            assert(old(self).world.client_live(cid.0 as int));
            assert(old(self).world.wf_client_obj(cid.0 as int));
        }
        let eid = match pawn {
            Some(e) => e,
            None => {
                return ;
            },
        };
        let pos = match self.world.get_entity(eid) {
            Some(e) => e.pos(now),
            None => {
                proof {
                    assert(false);
                }
                return ;
            },
        };
        let center = base_chunk(V3 { x: pos.x + 16, y: pos.y + 16, z: pos.z });
        proof {
            crate::geom::lemma_div_in_i32_range(pos.x as int + 16, CHUNK_PX as int);
            crate::geom::lemma_div_in_i32_range(pos.y as int + 16, CHUNK_PX as int);
            assert(-COORD_LIMIT <= center.x <= COORD_LIMIT && -COORD_LIMIT <= center.y
                <= COORD_LIMIT) by {
                lemma_chunk_center_bounds(pos.x as int + 16, center.x as int);
                lemma_chunk_center_bounds(pos.y as int + 16, center.y as int);
            }
        }
        let ghost wo = self.world;
        let ghost old_r = wo.client_at(cid.0 as int).view_state.region;
        let ghost new_r = ViewState::spec_region_for(center);
        let result: Option<(Region2, Region2)> = match self.world.clients.get_mut(
            cid.0 as u32,
        ) {
            Some(c) => c.view_state.update(center),
            None => None,
        };
        proof {
            lemma_client_view_preserves(wo, self.world, cid.0 as int);
            assert(self.world.client_live(cid.0 as int));
            assert(self.world.client_at(cid.0 as int) == (crate::world::Client {
                view_state: ViewState { region: new_r },
                ..wo.client_at(cid.0 as int)
            }));
            assert(crate::world::ops::clients_same_except(wo, self.world, cid.0 as int));
            assert(self.world.entities == wo.entities);
            assert(self.world.inventories == wo.inventories);
            assert(self.world.structures == wo.structures);
            assert(self.world.terrain_chunks == wo.terrain_chunks);
            assert(self.world.structures_by_chunk == wo.structures_by_chunk);
            assert(self.world.data == wo.data);
        }
        let ghost wv = self.world;
        let ghost base = self.outbox@.len() as int;
        match result {
            Some((from_region, to_region)) => {
                proof {
                    assert(from_region == old_r && to_region == new_r);
                }
                let mut cy = from_region.min.y;
                while cy < from_region.max.y
                    invariant
                        self.world == wv,
                        wv.wf(),
                        self.wake_queue == old(self).wake_queue,
                        self.wake_queue.wf(),
                        self.hooks == old(self).hooks,
                        from_region == old_r,
                        to_region == new_r,
                        from_region.min.y <= cy,
                        0 <= base <= self.outbox@.len(),
                        self.outbox@.take(base) == old(self).outbox@,
                        check_view_sound(self.outbox@, base, cid, wo, old_r, new_r, offset),
                        forall|p: V2|
                            #[trigger] spec_exited(old_r, new_r, p) && p.y < cy
                                ==> unload_sent(self.outbox@, base, cid, p, offset),
                    decreases from_region.max.y - cy,
                {
                    let mut cx = from_region.min.x;
                    while cx < from_region.max.x
                        invariant
                            self.world == wv,
                            wv.wf(),
                            self.wake_queue == old(self).wake_queue,
                            self.wake_queue.wf(),
                            self.hooks == old(self).hooks,
                            from_region == old_r,
                            to_region == new_r,
                            from_region.min.y <= cy < from_region.max.y,
                            from_region.min.x <= cx,
                            0 <= base <= self.outbox@.len(),
                            self.outbox@.take(base) == old(self).outbox@,
                            check_view_sound(self.outbox@, base, cid, wo, old_r, new_r,
                                offset),
                            forall|p: V2|
                                #[trigger] spec_exited(old_r, new_r, p) && (p.y < cy || (p.y
                                    == cy && p.x < cx)) ==> unload_sent(self.outbox@, base,
                                    cid, p, offset),
                        decreases from_region.max.x - cx,
                    {
                        let ghost pre_out = self.outbox@;
                        if !to_region.contains_exec(V2 { x: cx, y: cy }) {
                            let idx = chunk_to_idx(cx, cy, offset);
                            self.outbox.push((cid, Response::UnloadChunk(idx)));
                            proof {
                                assert(self.outbox@.take(base) =~= pre_out.take(base));
                                assert(spec_exited(old_r, new_r, V2 { x: cx, y: cy }));
                                assert(view_msg_ok(
                                    self.outbox@[self.outbox@.len() - 1],
                                    cid,
                                    wo,
                                    old_r,
                                    new_r,
                                    offset,
                                ));
                                lemma_msgs_grow_sound(pre_out, self.outbox@, base, cid, wo,
                                    old_r, new_r, offset);
                            }
                        }
                        proof {
                            assert forall|p: V2|
                                #[trigger] spec_exited(old_r, new_r, p) && (p.y < cy || (p.y
                                    == cy && p.x < cx + 1)) implies unload_sent(
                                self.outbox@, base, cid, p, offset) by {
                                if p.y < cy || (p.y == cy && p.x < cx) {
                                    lemma_sent_grows(pre_out, self.outbox@, base, cid, wo,
                                        p, offset);
                                } else {
                                    assert(p == (V2 { x: cx, y: cy }));
                                    assert(!new_r.contains(p));
                                    assert(self.outbox@[self.outbox@.len() - 1] == (
                                    cid,
                                    Response::UnloadChunk(
                                        spec_chunk_to_idx(p.x as int, p.y as int, offset)
                                            as u16,
                                    ),
                                    ));
                                }
                            }
                        }
                        cx += 1;
                    }
                    cy += 1;
                }
                let mut cy2 = to_region.min.y;
                while cy2 < to_region.max.y
                    invariant
                        self.world == wv,
                        wv.wf(),
                        self.wake_queue == old(self).wake_queue,
                        self.wake_queue.wf(),
                        self.hooks == old(self).hooks,
                        from_region == old_r,
                        to_region == new_r,
                        to_region.min.y <= cy2,
                        0 <= base <= self.outbox@.len(),
                        self.outbox@.take(base) == old(self).outbox@,
                        wv.terrain_chunks == wo.terrain_chunks,
                        check_view_sound(self.outbox@, base, cid, wo, old_r, new_r, offset),
                        forall|p: V2|
                            #[trigger] spec_exited(old_r, new_r, p) ==> unload_sent(
                                self.outbox@, base, cid, p, offset),
                        forall|p: V2|
                            #[trigger] spec_entered(old_r, new_r, p) && p.y < cy2
                                ==> terrain_sent(self.outbox@, base, cid, wo, p, offset),
                    decreases to_region.max.y - cy2,
                {
                    let mut cx2 = to_region.min.x;
                    while cx2 < to_region.max.x
                        invariant
                            self.world == wv,
                            wv.wf(),
                            self.wake_queue == old(self).wake_queue,
                            self.wake_queue.wf(),
                            self.hooks == old(self).hooks,
                            from_region == old_r,
                            to_region == new_r,
                            to_region.min.y <= cy2 < to_region.max.y,
                            to_region.min.x <= cx2,
                            0 <= base <= self.outbox@.len(),
                            self.outbox@.take(base) == old(self).outbox@,
                            wv.terrain_chunks == wo.terrain_chunks,
                            check_view_sound(self.outbox@, base, cid, wo, old_r, new_r,
                                offset),
                            forall|p: V2|
                                #[trigger] spec_exited(old_r, new_r, p) ==> unload_sent(
                                    self.outbox@, base, cid, p, offset),
                            forall|p: V2|
                                #[trigger] spec_entered(old_r, new_r, p) && (p.y < cy2 || (
                                p.y == cy2 && p.x < cx2)) ==> terrain_sent(self.outbox@,
                                    base, cid, wo, p, offset),
                        decreases to_region.max.x - cx2,
                    {
                        let ghost pre_out = self.outbox@;
                        if !from_region.contains_exec(V2 { x: cx2, y: cy2 }) {
                            self.load_chunk(cid, cx2, cy2, offset);
                            proof {
                                assert(self.outbox@.take(base) =~= pre_out.take(base));
                                assert(spec_entered(old_r, new_r, V2 { x: cx2, y: cy2 }));
                                assert(spec_chunk_payload_ok(
                                    wo,
                                    V2 { x: cx2, y: cy2 },
                                    match self.outbox@[self.outbox@.len() - 1].1 {
                                        Response::TerrainChunk(idx, data) => data@,
                                        _ => Seq::empty(),
                                    },
                                ));
                                assert(view_msg_ok(
                                    self.outbox@[self.outbox@.len() - 1],
                                    cid,
                                    wo,
                                    old_r,
                                    new_r,
                                    offset,
                                ));
                                lemma_msgs_grow_sound(pre_out, self.outbox@, base, cid, wo,
                                    old_r, new_r, offset);
                                assert forall|p: V2|
                                    #[trigger] spec_exited(old_r, new_r, p) implies
                                    unload_sent(self.outbox@, base, cid, p, offset) by {
                                    lemma_sent_grows(pre_out, self.outbox@, base, cid, wo,
                                        p, offset);
                                }
                                assert forall|p: V2|
                                    #[trigger] spec_entered(old_r, new_r, p) && (p.y < cy2
                                        || (p.y == cy2 && p.x < cx2 + 1)) implies
                                    terrain_sent(self.outbox@, base, cid, wo, p, offset) by {
                                    if p.y < cy2 || (p.y == cy2 && p.x < cx2) {
                                        lemma_sent_grows(pre_out, self.outbox@, base, cid,
                                            wo, p, offset);
                                    } else {
                                        assert(p == (V2 { x: cx2, y: cy2 }));
                                        assert(self.outbox@[self.outbox@.len() - 1].0
                                            == cid);
                                    }
                                }
                            }
                        } else {
                            proof {
                                assert forall|p: V2|
                                    #[trigger] spec_entered(old_r, new_r, p) && (p.y < cy2
                                        || (p.y == cy2 && p.x < cx2 + 1)) implies
                                    terrain_sent(self.outbox@, base, cid, wo, p, offset) by {
                                    if p.y < cy2 || (p.y == cy2 && p.x < cx2) {
                                    } else {
                                        assert(p == (V2 { x: cx2, y: cy2 }));
                                        assert(old_r.contains(p));
                                    }
                                }
                            }
                        }
                        cx2 += 1;
                    }
                    cy2 += 1;
                }
            },
            None => {
                proof {
                    assert(old_r == new_r);
                }
            },
        }
        proof {
            assert(self.outbox@.take(base) =~= old(self).outbox@);
        }
        self.wake_queue.push(now + VIEW_RECHECK_MS, WakeReason::CheckView(cid));
    }

    /// Sends the terrain of chunk `(cx, cy)` to the client, RLE16-encoded;
    /// an unloaded chunk is sent as an empty payload for the host to fill.
    pub fn load_chunk(&mut self, client_id: ClientId, cx: i32, cy: i32, offset: (u8, u8))
        requires
            old(self).world.wf(),
            old(self).wake_queue.wf(),
        ensures
            final(self).world == old(self).world,
            final(self).wake_queue == old(self).wake_queue,
            final(self).world.wf(),
            final(self).wake_queue.wf(),
            final(self).hooks == old(self).hooks,
            final(self).outbox@.len() == old(self).outbox@.len() + 1,
            final(self).outbox@.take(old(self).outbox@.len() as int) == old(self).outbox@,
            final(self).outbox@[old(self).outbox@.len() as int].0 == client_id,
            final(self).outbox@[old(self).outbox@.len() as int].1 matches Response::TerrainChunk(
                idx,
                data,
            ) && idx as int == spec_chunk_to_idx(cx as int, cy as int, offset)
                && spec_chunk_payload_ok(old(self).world, V2 { x: cx, y: cy }, data@),
    {
        let idx = chunk_to_idx(cx, cy, offset);
        let data: Vec<u8> = match self.world.get_terrain_chunk(V2 { x: cx, y: cy }) {
            Some(tc) => crate::rle16::rle16_encode(&tc.blocks),
            None => Vec::new(),
        };
        self.outbox.push((client_id, Response::TerrainChunk(idx, data)));
        proof {
            assert(self.outbox@.take(old(self).outbox@.len() as int) =~= old(self).outbox@);
        }
    }

    /// Tells the client to drop chunk `(cx, cy)` from its ring.
    pub fn unload_chunk(&mut self, client_id: ClientId, cx: i32, cy: i32, offset: (u8, u8))
        requires
            old(self).world.wf(),
        ensures
            *final(self) == (Server {
                outbox: final(self).outbox,
                ..*old(self)
            }),
            final(self).world.wf(),
            final(self).outbox@ == old(self).outbox@.push(
                (
                    client_id,
                    Response::UnloadChunk(
                        spec_chunk_to_idx(cx as int, cy as int, offset) as u16,
                    ),
                ),
            ),
    {
        let idx = chunk_to_idx(cx, cy, offset);
        self.outbox.push((client_id, Response::UnloadChunk(idx)));
    }
}

/// The center chunk of an in-bounds pixel position is in coordinate range.
proof fn lemma_chunk_center_bounds(v: int, c: int)
    requires
        -2 * COORD_LIMIT - 16 <= v <= 2 * COORD_LIMIT + 16,
        c == v / (CHUNK_PX as int),
    ensures
        -COORD_LIMIT <= c <= COORD_LIMIT,
{
    vstd::arithmetic::div_mod::lemma_fundamental_div_mod(v, CHUNK_PX as int);
    vstd::arithmetic::div_mod::lemma_mod_bound(v, CHUNK_PX as int);
    assert(-COORD_LIMIT <= c <= COORD_LIMIT) by (nonlinear_arith)
        requires
            v == CHUNK_PX * c + v % (CHUNK_PX as int),
            0 <= v % (CHUNK_PX as int) < CHUNK_PX,
            -2 * COORD_LIMIT - 16 <= v <= 2 * COORD_LIMIT + 16,
    ;
}

/// Changing only a client's `current_input` preserves well-formedness.
proof fn lemma_client_input_preserves(wo: World, wn: World, c: int)
    requires
        wo.wf(),
        wo.client_live(c),
        wn.client_live(c),
        wn.client_at(c) == (crate::world::Client {
            current_input: wn.client_at(c).current_input,
            ..wo.client_at(c)
        }),
        crate::world::ops::clients_same_except(wo, wn, c),
        wn.clients.wf(),
        wn.clients.spec_limit() == 0xFFFF,
        wn.entities == wo.entities,
        wn.inventories == wo.inventories,
        wn.structures == wo.structures,
        wn.terrain_chunks == wo.terrain_chunks,
        wn.structures_by_chunk == wo.structures_by_chunk,
        wn.data == wo.data,
    ensures
        wn.wf(),
{
    lemma_client_local_field_preserves(wo, wn, c);
}

/// Changing only a client's `view_state` preserves well-formedness.
proof fn lemma_client_view_preserves(wo: World, wn: World, c: int)
    requires
        wo.wf(),
        wo.client_live(c) ==> {
            &&& wn.client_live(c)
            &&& wn.client_at(c) == (crate::world::Client {
                view_state: wn.client_at(c).view_state,
                ..wo.client_at(c)
            })
            &&& crate::world::ops::clients_same_except(wo, wn, c)
            &&& wn.clients.wf()
            &&& wn.clients.spec_limit() == 0xFFFF
            &&& wn.entities == wo.entities
            &&& wn.inventories == wo.inventories
            &&& wn.structures == wo.structures
            &&& wn.terrain_chunks == wo.terrain_chunks
            &&& wn.structures_by_chunk == wo.structures_by_chunk
            &&& wn.data == wo.data
        },
        !wo.client_live(c) ==> wn == wo,
    ensures
        wn.wf(),
{
    if wo.client_live(c) {
        lemma_client_local_field_preserves(wo, wn, c);
    }
}

/// Shared frame for client-local field updates (input, view state, offset):
/// nothing the invariants mention changed.
proof fn lemma_client_local_field_preserves(wo: World, wn: World, c: int)
    requires
        wo.wf(),
        wo.client_live(c),
        wn.client_live(c),
        wn.client_at(c).pawn == wo.client_at(c).pawn,
        wn.client_at(c).child_entities == wo.client_at(c).child_entities,
        wn.client_at(c).child_inventories == wo.client_at(c).child_inventories,
        crate::world::ops::clients_same_except(wo, wn, c),
        wn.clients.wf(),
        wn.clients.spec_limit() == 0xFFFF,
        wn.entities == wo.entities,
        wn.inventories == wo.inventories,
        wn.structures == wo.structures,
        wn.terrain_chunks == wo.terrain_chunks,
        wn.structures_by_chunk == wo.structures_by_chunk,
        wn.data == wo.data,
    ensures
        wn.wf(),
{
    assert forall|c2: int| #[trigger] wn.client_live(c2) implies wn.wf_client_obj(c2) by {
        assert(wo.client_live(c2));
        assert(wo.wf_client_obj(c2));
        if c2 != c {
            assert(wn.client_at(c2) == wo.client_at(c2));
        }
    }
    assert forall|e: int| #[trigger] wn.entity_live(e) implies wn.wf_entity_obj(e, None) by {
        assert(wo.entity_live(e));
        assert(wo.wf_entity_obj(e, None));
        match wn.entity_at(e).attachment {
            EntityAttachment::Client(cid) => {
                assert(wo.client_live(cid.0 as int));
                if cid.0 as int == c {
                    assert(wn.client_at(c).child_entities == wo.client_at(c).child_entities);
                }
            },
            _ => {},
        }
    }
    assert forall|s: int| #[trigger] wn.structure_live(s) implies wn.wf_structure_obj(s, None) by {
        assert(wo.structure_live(s));
        assert(wo.wf_structure_obj(s, None));
    }
    assert forall|i: int| #[trigger] wn.inventory_live(i) implies wn.wf_inventory_obj(
        i,
        None,
        Set::empty(),
        None,
    ) by {
        assert(wo.inventory_live(i));
        assert(wo.wf_inventory_obj(i, None, Set::empty(), None));
        match wn.inventory_at(i).attachment {
            crate::world::InventoryAttachment::Client(cid) => {
                assert(wo.client_live(cid.0 as int));
                if cid.0 as int == c {
                    assert(wn.client_at(c).child_inventories == wo.client_at(
                        c,
                    ).child_inventories);
                }
            },
            _ => {},
        }
    }
    assert forall|cpos: V2| match #[trigger] wn.chunk_at(cpos) {
        Some(tc) => wn.wf_chunk_obj(cpos, tc),
        None => true,
    } by {
        match wn.chunk_at(cpos) {
            Some(tc) => {
                assert(wo.chunk_at(cpos) == Some(tc));
                assert(wo.wf_chunk_obj(cpos, tc));
            },
            None => {},
        }
    }
    crate::world::ops::lemma_sbc_unchanged_pub(wo, wn);
}

/// Changing only an entity's motion (within bounds) preserves
/// well-formedness.
proof fn lemma_entity_motion_preserves(wo: World, wn: World, e: int, motion: Motion)
    requires
        wo.wf(),
        wo.entity_live(e),
        wn.entity_live(e),
        motion.in_bounds(),
        -0x4000_0000_0000_0000 <= motion.start_time <= 0x4000_0000_0000_0000,
        wn.entity_at(e) == (crate::world::Entity { motion, ..wo.entity_at(e) }),
        crate::world::ops::entities_same_except(wo, wn, e),
        wn.entities.wf(),
        wn.clients == wo.clients,
        wn.inventories == wo.inventories,
        wn.structures == wo.structures,
        wn.terrain_chunks == wo.terrain_chunks,
        wn.structures_by_chunk == wo.structures_by_chunk,
        wn.data == wo.data,
    ensures
        wn.wf(),
{
    assert forall|c2: int| #[trigger] wn.client_live(c2) implies wn.wf_client_obj(c2) by {
        assert(wo.client_live(c2));
        assert(wo.wf_client_obj(c2));
        let obj = wn.client_at(c2);
        assert(obj == wo.client_at(c2));
        assert forall|j: int| 0 <= j < obj.child_entities@.len() implies wn.entity_live(
            obj.child_entities@[j] as int,
        ) && wn.entity_at(obj.child_entities@[j] as int).attachment == EntityAttachment::Client(
            ClientId(c2 as u16),
        ) by {
            let y = obj.child_entities@[j];
            assert(wo.entity_live(y as int));
            if y as int == e {
                assert(wn.entity_at(e).attachment == wo.entity_at(e).attachment);
            } else {
                assert(wn.entity_at(y as int) == wo.entity_at(y as int));
            }
        }
        match obj.pawn {
            Some(pe) => {
                assert(wo.entity_live(pe.0 as int));
                if pe.0 as int == e {
                    assert(wn.entity_at(e).attachment == wo.entity_at(e).attachment);
                } else {
                    assert(wn.entity_at(pe.0 as int) == wo.entity_at(pe.0 as int));
                }
            },
            None => {},
        }
    }
    assert forall|e2: int| #[trigger] wn.entity_live(e2) implies wn.wf_entity_obj(e2, None) by {
        assert(wo.entity_live(e2));
        assert(wo.wf_entity_obj(e2, None));
        if e2 != e {
            assert(wn.entity_at(e2) == wo.entity_at(e2));
        } else {
            assert(wn.entity_at(e).child_inventories == wo.entity_at(e).child_inventories);
        }
    }
    assert forall|s: int| #[trigger] wn.structure_live(s) implies wn.wf_structure_obj(s, None) by {
        assert(wo.structure_live(s));
        assert(wo.wf_structure_obj(s, None));
    }
    assert forall|i: int| #[trigger] wn.inventory_live(i) implies wn.wf_inventory_obj(
        i,
        None,
        Set::empty(),
        None,
    ) by {
        assert(wo.inventory_live(i));
        assert(wo.wf_inventory_obj(i, None, Set::empty(), None));
        match wn.inventory_at(i).attachment {
            crate::world::InventoryAttachment::Entity(eid2) => {
                assert(wo.entity_live(eid2.0 as int));
                if eid2.0 as int == e {
                    assert(wn.entity_at(e).child_inventories == wo.entity_at(
                        e,
                    ).child_inventories);
                }
            },
            _ => {},
        }
    }
    assert forall|cpos: V2| match #[trigger] wn.chunk_at(cpos) {
        Some(tc) => wn.wf_chunk_obj(cpos, tc),
        None => true,
    } by {
        match wn.chunk_at(cpos) {
            Some(tc) => {
                assert(wo.chunk_at(cpos) == Some(tc));
                assert(wo.wf_chunk_obj(cpos, tc));
            },
            None => {},
        }
    }
    crate::world::ops::lemma_sbc_unchanged_pub(wo, wn);
}

} // verus!
