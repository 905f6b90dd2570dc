//! Notification dispatcher, decision half: which private acknowledgement an
//! outcome earns, and its exact wording.
//!
//! Policy, fixed here once: a full room stays silent — the user gets no
//! acknowledgement for an attempt that bounced off capacity.  Likewise a
//! remove by a non-member earns no message.  A store failure during an add is
//! answered with an operator-visible error message.  Sending is best-effort
//! and lives outside the library: a failed delivery never reverts a roster
//! mutation.

use vstd::prelude::*;
use vstd::string::*;

use crate::engine::{AddOutcome, RemoveOutcome};
use crate::text::{spec_dec_str, u64_to_string};
use crate::PRIMARY_SLOTS;

verus! {

/// A private acknowledgement to the acting user.
#[derive(Debug, Clone, Copy, PartialEq, Eq, Structural)]
pub enum Notification {
    /// Admitted into a primary slot.
    RegisteredPrimary,
    /// Admitted into a reserve slot, ranked 1-based among the reserves.
    RegisteredReserve { rank: usize },
    /// Already a member of this very room.
    AlreadyRegistered,
    /// Registered in another room, named by its room number.
    RegisteredElsewhere { room_num: u32 },
    /// The membership was removed.
    Deregistered,
    /// The store failed while mutating; an operator has to look.
    StoreError,
}

/// The acknowledgement an add outcome earns.  The first
/// [`crate::PRIMARY_SLOTS`] admissions are primary; later ones are reserves
/// with rank `seq - PRIMARY_SLOTS`.  A full room earns none.
pub open spec fn spec_notification_for_add(outcome: AddOutcome) -> Option<Notification> {
    match outcome {
        AddOutcome::Admitted { seq } => if seq <= PRIMARY_SLOTS {
            Some(Notification::RegisteredPrimary)
        } else {
            Some(Notification::RegisteredReserve { rank: (seq - PRIMARY_SLOTS) as usize })
        },
        AddOutcome::AlreadyRegistered => Some(Notification::AlreadyRegistered),
        AddOutcome::RegisteredElsewhere { room_num } => Some(
            Notification::RegisteredElsewhere { room_num },
        ),
        AddOutcome::RoomFull => None,
        AddOutcome::MissingRoom => Some(Notification::StoreError),
    }
}

/// The acknowledgement a remove outcome earns.  A non-member earns none.
pub open spec fn spec_notification_for_remove(outcome: RemoveOutcome) -> Option<Notification> {
    match outcome {
        RemoveOutcome::Removed => Some(Notification::Deregistered),
        RemoveOutcome::NotMember => None,
    }
}

/// Maps an add outcome to its acknowledgement.
pub fn notification_for_add(outcome: AddOutcome) -> (n: Option<Notification>)
    ensures
        n == spec_notification_for_add(outcome),
{
    match outcome {
        AddOutcome::Admitted { seq } => if seq <= PRIMARY_SLOTS {
            Some(Notification::RegisteredPrimary)
        } else {
            Some(Notification::RegisteredReserve { rank: seq - PRIMARY_SLOTS })
        },
        AddOutcome::AlreadyRegistered => Some(Notification::AlreadyRegistered),
        AddOutcome::RegisteredElsewhere { room_num } => Some(
            Notification::RegisteredElsewhere { room_num },
        ),
        AddOutcome::RoomFull => None,
        AddOutcome::MissingRoom => Some(Notification::StoreError),
    }
}

/// Maps a remove outcome to its acknowledgement.
pub fn notification_for_remove(outcome: RemoveOutcome) -> (n: Option<Notification>)
    ensures
        n == spec_notification_for_remove(outcome),
{
    match outcome {
        RemoveOutcome::Removed => Some(Notification::Deregistered),
        RemoveOutcome::NotMember => None,
    }
}

impl Notification {
    /// The exact wording of the acknowledgement.
    pub open spec fn spec_text(self) -> Seq<char> {
        match self {
            Notification::RegisteredPrimary => "You registered for the room."@,
            Notification::RegisteredReserve { rank } => "You registered as a reserve for the room. Your position is "@
                + spec_dec_str(rank as int) + "/6."@,
            Notification::AlreadyRegistered => "You are already registered for this room."@,
            Notification::RegisteredElsewhere { room_num } => "You can only register for one room. You are currently registered for room #"@
                + spec_dec_str(room_num as int) + "."@,
            Notification::Deregistered => "You have deregistered from the room."@,
            Notification::StoreError => "There was an error registering. Please contact an operator."@,
        }
    }

    /// Renders the acknowledgement.
    pub fn text(&self) -> (s: String)
        ensures
            s@ == self.spec_text(),
    {
        match self {
            Notification::RegisteredPrimary => String::from_str("You registered for the room."),
            Notification::RegisteredReserve { rank } => {
                let mut s = String::from_str(
                    "You registered as a reserve for the room. Your position is ",
                );
                let digits = u64_to_string(*rank as u64);
                s.append(digits.as_str());
                s.append("/6.");
                proof {
                    assert(s@ =~= self.spec_text());
                }
                s
            },
            Notification::AlreadyRegistered => String::from_str(
                "You are already registered for this room.",
            ),
            Notification::RegisteredElsewhere { room_num } => {
                let mut s = String::from_str(
                    "You can only register for one room. You are currently registered for room #",
                );
                let digits = u64_to_string(*room_num as u64);
                s.append(digits.as_str());
                s.append(".");
                proof {
                    assert(s@ =~= self.spec_text());
                }
                s
            },
            Notification::Deregistered => String::from_str("You have deregistered from the room."),
            Notification::StoreError => String::from_str(
                "There was an error registering. Please contact an operator.",
            ),
        }
    }
}

} // verus!
