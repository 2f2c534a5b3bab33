//! Inventory operations under their own namespace, mirroring the op layer.

use vstd::prelude::*;
use crate::types::{InventoryId, ItemId};
use crate::hooks::HookEvent;
use crate::world::World;
use crate::world::ops::{
    OpResult, inventory_create, inventory_create_unchecked, inventory_destroy, inventory_attach,
    inventory_update, inventories_same_except, spec_inv_count, spec_update_item_count,
};
use crate::world::InventoryAttachment;

verus! {

/// Adds a fresh empty inventory attached to the world.
pub fn create(w: &mut World, hooks: &mut Vec<HookEvent>) -> (r: OpResult<InventoryId>)
    requires
        old(w).wf(),
    ensures
        final(w).wf(),
        r is Ok ==> final(w).inventory_live(r->Ok_0.0 as int) && !old(w).inventory_live(
            r->Ok_0.0 as int,
        ) && final(hooks)@ == old(hooks)@.push(HookEvent::InventoryCreate(r->Ok_0)),
        r is Err ==> *final(w) == *old(w) && final(hooks)@ == old(hooks)@ && old(
            w,
        ).inventories.spec_len() == old(w).inventories.spec_limit(),
{
    inventory_create(w, hooks)
}

/// Adds a fresh empty inventory without firing hooks, for the save loader.
pub fn create_unchecked(w: &mut World) -> (r: OpResult<InventoryId>)
    requires
        old(w).wf(),
    ensures
        final(w).wf(),
        r is Ok ==> final(w).inventory_live(r->Ok_0.0 as int) && !old(w).inventory_live(
            r->Ok_0.0 as int,
        ),
        r is Err ==> *final(w) == *old(w) && old(w).inventories.spec_len() == old(
            w,
        ).inventories.spec_limit(),
{
    inventory_create_unchecked(w)
}

/// Removes the inventory, detaching it from its parent.
pub fn destroy(w: &mut World, hooks: &mut Vec<HookEvent>, iid: InventoryId) -> (r: OpResult<()>)
    requires
        old(w).wf(),
    ensures
        final(w).wf(),
        r is Ok ==> !final(w).inventory_live(iid.0 as int) && old(w).inventory_live(iid.0 as int)
            && final(hooks)@ == old(hooks)@.push(HookEvent::InventoryDestroy(iid)),
        r is Err ==> *final(w) == *old(w) && final(hooks)@ == old(hooks)@ && !old(
            w,
        ).inventory_live(iid.0 as int),
{
    inventory_destroy(w, hooks, iid)
}

/// Re-parents the inventory; returns the previous attachment.
pub fn attach(w: &mut World, iid: InventoryId, new_attach: InventoryAttachment) -> (r: OpResult<
    InventoryAttachment,
>)
    requires
        old(w).wf(),
    ensures
        final(w).wf(),
        r is Ok ==> old(w).inventory_live(iid.0 as int) && r->Ok_0 == old(w).inventory_at(
            iid.0 as int,
        ).attachment && final(w).inventory_at(iid.0 as int).attachment == new_attach,
        r is Err ==> *final(w) == *old(w) && (!old(w).inventory_live(iid.0 as int) || (
        match new_attach {
            InventoryAttachment::World => false,
            InventoryAttachment::Client(c) => !old(w).client_live(c.0 as int),
            InventoryAttachment::Entity(e) => !old(w).entity_live(e.0 as int),
            InventoryAttachment::Structure(st) => !old(w).structure_live(st.0 as int),
        })),
{
    inventory_attach(w, iid, new_attach)
}

/// Adjusts the count of `item_id`, saturating at 0 and 255; a zero count
/// removes the entry.  Fails only if `iid` is not valid.
pub fn update(
    w: &mut World,
    hooks: &mut Vec<HookEvent>,
    iid: InventoryId,
    item_id: ItemId,
    adjust: i16,
) -> (r: OpResult<u8>)
    requires
        old(w).wf(),
    ensures
        final(w).wf(),
        match r {
            Ok(new_count) => {
                &&& old(w).inventory_live(iid.0 as int)
                &&& new_count as int == spec_update_item_count(
                    spec_inv_count(*old(w), iid.0 as int, item_id),
                    adjust as int,
                )
                &&& spec_inv_count(*final(w), iid.0 as int, item_id) == new_count as int
                &&& inventories_same_except(*old(w), *final(w), iid.0 as int)
                &&& forall|k: u64|
                    k != item_id as u64 ==> #[trigger] final(w).inventory_at(
                        iid.0 as int,
                    ).contents.spec_get(k) == old(w).inventory_at(iid.0 as int).contents.spec_get(
                        k,
                    )
            },
            Err(_) => *final(w) == *old(w) && !old(w).inventory_live(iid.0 as int),
        },
{
    inventory_update(w, hooks, iid, item_id, adjust)
}

} // verus!
