//! What a frame needs before it can be submitted: a buffer, a descriptor slot and
//! a fence. They are asked for in this order.

use vstd::prelude::*;

use crate::deferred::FenceTicket;
use crate::output::ScanoutToken;
use crate::present::{device_lost, vk_result_is_device_lost};
use crate::tick::TickSkipReason;

verus! {

/// What follows an attempt to acquire something.
#[derive(Clone, Copy, Debug, PartialEq, Eq, Structural)]
pub enum AcquireStep {
    /// There is a buffer; a slot comes next.
    Slot { token: ScanoutToken },
    /// There is a slot too; a fence comes next.
    Ticket { token: ScanoutToken, slot: usize },
    /// Everything is there.
    Ready { token: ScanoutToken, slot: usize, ticket: FenceTicket },
    /// The frame has to wait for another tick.
    Skipped(TickSkipReason),
    /// The frame fails with this Vulkan code.
    Failed {
        /// The slot to give back.
        slot: usize,
        /// Whether the renderer can no longer be used.
        renderer_failed: bool,
        code: i32,
    },
}

/// A buffer was asked for.
pub fn buffer_acquired(token: Option<ScanoutToken>) -> (r: AcquireStep)
    ensures
        r == (match token {
            Some(token) => AcquireStep::Slot { token },
            None => AcquireStep::Skipped(TickSkipReason::NoBO),
        }),
{
    match token {
        Some(token) => AcquireStep::Slot { token },
        None => AcquireStep::Skipped(TickSkipReason::NoBO),
    }
}

/// A descriptor slot was asked for.
pub fn slot_acquired(token: ScanoutToken, slot: Option<usize>) -> (r: AcquireStep)
    ensures
        r == (match slot {
            Some(slot) => AcquireStep::Ticket { token, slot },
            None => AcquireStep::Skipped(TickSkipReason::NoPool),
        }),
{
    match slot {
        Some(slot) => AcquireStep::Ticket { token, slot },
        None => AcquireStep::Skipped(TickSkipReason::NoPool),
    }
}

/// A fence was asked for; an error is the code that Vulkan gave. Without a fence
/// the slot goes back, and a lost device stops the renderer.
pub fn ticket_acquired(
    token: ScanoutToken,
    slot: usize,
    ticket: Result<FenceTicket, i32>,
) -> (r: AcquireStep)
    ensures
        r == (match ticket {
            Ok(ticket) => AcquireStep::Ready { token, slot, ticket },
            Err(code) => AcquireStep::Failed { slot, renderer_failed: device_lost(code), code },
        }),
{
    match ticket {
        Ok(ticket) => AcquireStep::Ready { token, slot, ticket },
        Err(code) => AcquireStep::Failed {
            slot,
            renderer_failed: vk_result_is_device_lost(code),
            code,
        },
    }
}

} // verus!
