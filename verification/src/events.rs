//! Event pipeline: one gateway reaction event, end to end — filter, validate,
//! mutate, and compute what the caller owes the outside world afterwards.
//!
//! The caller performs the I/O the response demands: strip the triggering
//! reaction first (so no pending state stays visible), then send the
//! acknowledgement and rewrite the announcement footer, in any order, both
//! best-effort — neither failure reverts the roster mutation.

use vstd::prelude::*;

use crate::cache::TrackedRoomCache;
use crate::engine::{
    capacity_ok, handle_add, handle_remove, spec_add_outcome, spec_add_signups,
    spec_remove_outcome, AddOutcome, RemoveOutcome,
};
use crate::filter::{filter_event, spec_filter, FilterDecision, ReactionEvent};
use crate::laws::{
    lemma_add_preserves_capacity, lemma_add_preserves_exclusive, lemma_remove_preserves_capacity,
    lemma_remove_preserves_exclusive,
};
use crate::notify::{
    notification_for_add, notification_for_remove, spec_notification_for_add,
    spec_notification_for_remove, Notification,
};
use crate::store::{exclusive, member_count, without_row, RosterStore};
use crate::text::{footer_text, spec_footer_text};

verus! {

/// What processing one gateway event obliges the caller to do.
pub enum EventResponse {
    /// The event was noise; nothing changed and nothing is owed.
    Ignored,
    /// The event was accepted: strip the triggering reaction from the
    /// announcement, send the acknowledgement if one is carried here, and,
    /// when a roster changed, rewrite the announcement footer to the carried
    /// text.
    Handled { notification: Option<Notification>, footer: Option<String> },
}

/// Processes one gateway reaction event: filters it against the cache alone,
/// validates and applies the roster mutation, and computes the
/// acknowledgement and the fresh footer.  The footer is recomputed from the
/// store after the mutation — never from the cache.
pub fn process_reaction(
    store: &mut RosterStore,
    cache: &TrackedRoomCache,
    bot_id: u64,
    ev: &ReactionEvent,
) -> (resp: EventResponse)
    requires
        old(store).wf(),
        capacity_ok(old(store).signups@),
        old(store).signups@.len() < usize::MAX,
    ensures
        final(store).wf(),
        capacity_ok(final(store).signups@),
        exclusive(old(store).signups@) ==> exclusive(final(store).signups@),
        final(store).rooms == old(store).rooms,
        final(store).configs == old(store).configs,
        final(store).next_num == old(store).next_num,
        ({
            let d = spec_filter(*cache, bot_id, *ev);
            match d {
                FilterDecision::Ignore => resp is Ignored && *final(store) == *old(store),
                FilterDecision::AcceptAdd => {
                    let uid = ev.user_id->Some_0;
                    let outcome = spec_add_outcome(
                        old(store).rooms@,
                        old(store).signups@,
                        ev.message_id,
                        uid,
                    );
                    &&& final(store).signups@ == spec_add_signups(
                        old(store).rooms@,
                        old(store).signups@,
                        ev.message_id,
                        uid,
                    )
                    &&& resp matches EventResponse::Handled { notification, footer }
                        && notification == spec_notification_for_add(outcome) && (footer is Some
                        <==> outcome is Admitted) && (footer is Some ==> footer->Some_0@
                        == spec_footer_text(
                        member_count(final(store).signups@, ev.message_id) as int,
                    ))
                },
                FilterDecision::AcceptRemove => {
                    let uid = ev.user_id->Some_0;
                    let outcome = spec_remove_outcome(old(store).signups@, ev.message_id, uid);
                    &&& final(store).signups@ == without_row(
                        old(store).signups@,
                        ev.message_id,
                        uid,
                    )
                    &&& resp matches EventResponse::Handled { notification, footer }
                        && notification == spec_notification_for_remove(outcome) && (footer is Some
                        <==> outcome is Removed) && (footer is Some ==> footer->Some_0@
                        == spec_footer_text(
                        member_count(final(store).signups@, ev.message_id) as int,
                    ))
                },
            }
        }),
{
    match filter_event(cache, bot_id, ev) {
        FilterDecision::Ignore => EventResponse::Ignored,
        FilterDecision::AcceptAdd => {
            let uid = match ev.user_id {
                Some(u) => u,
                None => {
                    proof {
                        assert(false);
                    }
                    0
                },
            };
            let outcome = handle_add(store, ev.message_id, uid);
            proof {
                lemma_add_preserves_capacity(
                    old(store).rooms@,
                    old(store).signups@,
                    ev.message_id,
                    uid,
                );
                if exclusive(old(store).signups@) {
                    lemma_add_preserves_exclusive(
                        old(store).rooms@,
                        old(store).signups@,
                        ev.message_id,
                        uid,
                    );
                }
            }
            let notification = notification_for_add(outcome);
            let footer = match outcome {
                AddOutcome::Admitted { seq: _ } => {
                    let c = store.count_memberships(ev.message_id);
                    Some(footer_text(c))
                },
                _ => None,
            };
            EventResponse::Handled { notification, footer }
        },
        FilterDecision::AcceptRemove => {
            let uid = match ev.user_id {
                Some(u) => u,
                None => {
                    proof {
                        assert(false);
                    }
                    0
                },
            };
            let outcome = handle_remove(store, ev.message_id, uid);
            proof {
                lemma_remove_preserves_capacity(old(store).signups@, ev.message_id, uid);
                if exclusive(old(store).signups@) {
                    lemma_remove_preserves_exclusive(old(store).signups@, ev.message_id, uid);
                }
            }
            let notification = notification_for_remove(outcome);
            let footer = match outcome {
                RemoveOutcome::Removed => {
                    let c = store.count_memberships(ev.message_id);
                    Some(footer_text(c))
                },
                RemoveOutcome::NotMember => None,
            };
            EventResponse::Handled { notification, footer }
        },
    }
}

} // verus!
