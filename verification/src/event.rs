//! Change notifications, reduced to the kinds the engine distinguishes.

use vstd::prelude::*;

verus! {

/// The kind of one change notification.
#[derive(Clone, Copy, Debug, PartialEq, Eq, Structural)]
pub enum EventKind {
    /// Something was created.
    Create,
    /// Content was modified.
    Modify,
    /// Only metadata was modified.
    MetadataModify,
    /// Something was removed.
    Remove,
    /// Something was read.
    Access,
    /// Anything the notifier could not classify.
    Other,
}

/// One change notification: its kind and the absolute paths it names.
pub struct Event {
    /// What happened.
    pub kind: EventKind,
    /// The paths the notification names.
    pub paths: Vec<Vec<u8>>,
}

/// The kinds that may trigger the command: everything but pure access and
/// metadata-only modification, which say nothing about content.
pub open spec fn spec_should_trigger(kind: EventKind) -> bool {
    !(kind is Access || kind is MetadataModify)
}

/// Filter out events that should not trigger re-running the command: access
/// and metadata-only notifications are dropped, every other kind is kept.
pub fn should_event_trigger(event: &Event) -> (r: bool)
    ensures
        r == spec_should_trigger(event.kind),
{
    match event.kind {
        EventKind::Access => false,
        EventKind::MetadataModify => false,
        _ => true,
    }
}

} // verus!
