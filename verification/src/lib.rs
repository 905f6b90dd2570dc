//! Signup coordination engine for capacity-limited rooms announced on a chat
//! platform.
//!
//! A room is anchored to one announcement message; users join or leave by
//! attaching an affirmative or negative reaction to it.  The library turns the
//! resulting event stream into a consistent roster: an event filter discards
//! irrelevant events against an in-process cache, a validator enforces the
//! capacity of fifteen members and the one-room-per-user exclusivity rule, a
//! mutator applies the change to the roster store, and the outcome determines
//! the acknowledgement sent to the user and the remaining-capacity footer shown
//! under the announcement.

use vstd::prelude::*;

pub mod cache;
pub mod engine;
pub mod events;
pub mod filter;
pub mod laws;
pub mod notify;
pub mod refs;
pub mod roster;
pub mod store;
pub mod text;

verus! {

/// Tail of every announcement footer, inviting users to react.
pub const REACT_STR: &'static str = "react to this message to register";

/// Accent colour used for announcement and roster embeds.
pub const EMBED_COLOUR: u32 = 0x007FB3;

/// Maximum number of memberships a room can hold.
pub const ROOM_CAPACITY: usize = 15;

/// Number of primary slots; admissions beyond these are reserves.
pub const PRIMARY_SLOTS: usize = 9;

/// Number of reserve slots, ranked by admission order.
pub const RESERVE_SLOTS: usize = 6;

} // verus!
