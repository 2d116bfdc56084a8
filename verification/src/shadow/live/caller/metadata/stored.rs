//! Retained router metadata of one owner interval.
use vstd::prelude::*;

use super::tracker::{Tracker, TrackerModel};
use crate::charge;
use crate::shadow::Epoch;

verus! {

/// A retained tracker.
pub struct StoredMetadata {
    /// The tracker.
    pub tracker: Box<Tracker>,
}

impl View for StoredMetadata {
    type V = TrackerModel;

    open spec fn view(&self) -> TrackerModel {
        self.tracker@
    }
}

/// The retained bytes of a tracker and its map entry.
pub open spec fn stored_bytes(tracker: TrackerModel) -> nat {
    charge::clamp(charge::node_bytes::<(Epoch, StoredMetadata)>() + tracker.retained_bytes())
}

/// The copy that a frame works on: a snapshot of the retained tracker, or a
/// native tracker where none is retained.
pub open spec fn forked(old: Option<TrackerModel>) -> TrackerModel {
    match old {
        Some(tracker) => tracker.snapshot(),
        None => TrackerModel::initial(true),
    }
}

/// The tracker that is retained, if one is.
pub open spec fn tracker_of(old: Option<&StoredMetadata>) -> Option<TrackerModel> {
    match old {
        Some(stored) => Some(stored@),
        None => None,
    }
}

impl StoredMetadata {
    /// The tracker keeps its limits.
    pub open spec fn wf(&self) -> bool {
        self.tracker@.wf()
    }

    /// The copy that a frame works on.
    pub fn fork(old: Option<&StoredMetadata>) -> (r: StoredMetadata)
        requires
            old matches Some(stored) ==> stored.wf(),
        ensures
            r.wf(),
            r@ == forked(tracker_of(old)),
    {
        match old {
            Some(stored) => StoredMetadata { tracker: Box::new(stored.tracker.snapshot()) },
            None => StoredMetadata { tracker: Box::new(Tracker::native()) },
        }
    }

    /// The bytes of the copy that a frame works on.
    pub fn fork_charge(old: Option<&StoredMetadata>) -> (r: usize)
        ensures
            r == stored_bytes(forked(tracker_of(old))),
    {
        let tracker = match old {
            Some(stored) => stored.tracker.snapshot_charge(),
            None => Tracker::native().retained_charge(),
        };
        charge::node_charge::<(Epoch, StoredMetadata)>().saturating_add(tracker)
    }

    /// The retained bytes.
    pub fn retained_charge(&self) -> (r: usize)
        ensures
            r == stored_bytes(self@),
    {
        charge::node_charge::<(Epoch, StoredMetadata)>().saturating_add(
            self.tracker.retained_charge(),
        )
    }
}

} // verus!
