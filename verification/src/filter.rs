//! Event filter: decides, against the tracked-room cache alone, whether a raw
//! gateway reaction event is a signup, a withdrawal, or noise.
//!
//! An event survives only when it was raised inside a guild, by someone other
//! than the engine itself, in the guild's watched channel, on a tracked
//! announcement, with one of the two recognized symbols.  Everything else is
//! ignored without touching the store.  An accepted event obliges the caller
//! to strip the triggering reaction before the business logic runs; a
//! rejected one leaves foreign reactions untouched.

use vstd::prelude::*;

use crate::cache::TrackedRoomCache;

verus! {

/// Which reaction symbol an event carries: the affirmative signup symbol, the
/// negative withdrawal symbol, or anything else.
#[derive(Debug, Clone, Copy, PartialEq, Eq, Structural)]
pub enum Emoji {
    Affirmative,
    Negative,
    Other,
}

/// Whether the reaction was attached or detached.  Detachments are noise to
/// the engine — its own corrective strips come back as detachments.
#[derive(Debug, Clone, Copy, PartialEq, Eq, Structural)]
pub enum ReactionAction {
    Added,
    Removed,
}

/// A raw gateway reaction event, reduced to plain values.
#[derive(Debug, Clone, Copy)]
pub struct ReactionEvent {
    /// The message the reaction sits on: a room's announcement, if tracked.
    pub message_id: u64,
    /// The channel the message lives in.
    pub channel_id: u64,
    /// The guild the channel belongs to; absent for direct messages.
    pub guild_id: Option<u64>,
    /// The reacting user; the gateway may omit it.
    pub user_id: Option<u64>,
    /// The symbol reacted with.
    pub emoji: Emoji,
    /// Whether the reaction was attached or detached.
    pub action: ReactionAction,
}

/// What the filter decides for an event.
#[derive(Debug, Clone, Copy, PartialEq, Eq, Structural)]
pub enum FilterDecision {
    /// A signup request for the event's room by the event's user.
    AcceptAdd,
    /// A withdrawal request for the event's room by the event's user.
    AcceptRemove,
    /// Noise: nothing may happen, in particular no store access.
    Ignore,
}

/// The filter's contract, clause by clause in the order the checks run.
pub open spec fn spec_filter(cache: TrackedRoomCache, bot_id: u64, ev: ReactionEvent)
    -> FilterDecision {
    if !(ev.action is Added) {
        FilterDecision::Ignore
    } else if !(ev.guild_id is Some) {
        FilterDecision::Ignore
    } else if !(ev.user_id is Some) || ev.user_id->Some_0 == bot_id {
        FilterDecision::Ignore
    } else if !(match cache.config_view(ev.guild_id->Some_0) {
        Some(c) => c.channel_id == Some(ev.channel_id),
        None => false,
    }) {
        FilterDecision::Ignore
    } else if !cache.tracks(ev.message_id) {
        FilterDecision::Ignore
    } else {
        match ev.emoji {
            Emoji::Affirmative => FilterDecision::AcceptAdd,
            Emoji::Negative => FilterDecision::AcceptRemove,
            Emoji::Other => FilterDecision::Ignore,
        }
    }
}

/// Runs the filter: an O(cache) decision with no store access.
pub fn filter_event(cache: &TrackedRoomCache, bot_id: u64, ev: &ReactionEvent) -> (d:
    FilterDecision)
    ensures
        d == spec_filter(*cache, bot_id, *ev),
{
    match ev.action {
        ReactionAction::Removed => {
            return FilterDecision::Ignore;
        },
        ReactionAction::Added => {},
    }
    let gid = match ev.guild_id {
        Some(g) => g,
        None => {
            return FilterDecision::Ignore;
        },
    };
    match ev.user_id {
        Some(u) if u != bot_id => {},
        _ => {
            return FilterDecision::Ignore;
        },
    }
    let watched = match cache.config_of(gid) {
        Some(c) => match c.channel_id {
            Some(ch) => ch == ev.channel_id,
            None => false,
        },
        None => false,
    };
    if !watched {
        return FilterDecision::Ignore;
    }
    if !cache.contains_room(ev.message_id) {
        return FilterDecision::Ignore;
    }
    match ev.emoji {
        Emoji::Affirmative => FilterDecision::AcceptAdd,
        Emoji::Negative => FilterDecision::AcceptRemove,
        Emoji::Other => FilterDecision::Ignore,
    }
}

} // verus!
