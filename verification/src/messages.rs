//! Commands the engine consumes, stamped with a sequence number.

use vstd::prelude::*;

use crate::utils::{AssetId, Order, UserId};

verus! {

/// A command together with its place in the total order of applied
/// commands.  Senders submit `sequence == 0`; the sequencer stamps the
/// real value before the command is journaled and applied.
#[derive(Copy, Clone, Debug, PartialEq, Eq, Structural)]
pub struct Message {
    pub sequence: u64,
    pub payload: MessagePayload,
}

/// The three commands the engine understands.  Balance adjustments are
/// administrative and may drive a balance negative.
#[derive(Copy, Clone, Debug, PartialEq, Eq, Structural)]
pub enum MessagePayload {
    CreateOrder(Order),
    CancelOrder { order_id: u64 },
    AdjustBalance { user_id: UserId, asset_id: AssetId, change: i64 },
}

} // verus!
