//! The watch engine: the poll loop's state machine.
//!
//! A watch starts by recording an initial baseline device set without
//! reporting anything, then on every later successful scan diffs the
//! result against the baseline, replaces the baseline, and hands the
//! events out for dispatch. A failed scan changes nothing: the next
//! cycle retries from the last known-good baseline. Once stopped, a
//! watch never emits again.
//!
//! The adaptation layer owns the background thread, the timer and the
//! callbacks; each cycle it enumerates the bus and feeds the outcome
//! to [`Watch::poll_step`], then pushes each returned event to the
//! handles [`Watch::dispatch`] names.

use vstd::prelude::*;

use crate::device::DeviceSet;
use crate::device::DeviceView;
use crate::diff::Event;
use crate::diff::diff;
use crate::diff::diff_spec;
use crate::registry::Registry;
use crate::registry::WatchSubscription;
use crate::registry::matching_spec;
use crate::registry::parsed_subscription;
use crate::registry::registration_valid;
use crate::utils::WatchError;

verus! {

/// Where the poll loop stands.
#[derive(Debug, Clone, Copy, PartialEq, Eq, Structural)]
pub enum WatchPhase {
    /// No baseline recorded yet: the first successful scan only
    /// populates it and reports nothing.
    Starting,
    /// A baseline stands; every successful scan is diffed against it.
    Running,
    /// Torn down: no further events, whatever the scans say.
    Stopped,
}

/// One device watch: the poll loop's state and the listener registry
/// it dispatches to.
pub struct Watch {
    /// Where the poll loop stands.
    pub phase: WatchPhase,
    /// The most recently confirmed device set: the left-hand side of
    /// the next diff. Owned by the poll loop alone.
    pub baseline: DeviceSet,
    /// The active listeners, shared with the callers' context through
    /// the adaptation layer's lock.
    pub registry: Registry,
}

impl Watch {
    /// The baseline holds each device once and the registry's handles
    /// are distinct.
    pub open spec fn wf(&self) -> bool {
        &&& self.baseline.wf()
        &&& self.registry.wf()
    }

    /// A fresh watch: starting, with an empty baseline and no
    /// listeners.
    pub fn new() -> (w: Watch)
        ensures
            w.wf(),
            w.phase == WatchPhase::Starting,
            w.baseline@ == Seq::<DeviceView>::empty(),
            w.registry.listeners@ == Seq::<(u64, WatchSubscription)>::empty(),
            w.registry.next_handle == 0,
    {
        Watch { phase: WatchPhase::Starting, baseline: DeviceSet::empty(), registry: Registry::new() }
    }

    /// Registers a listener for the event name `method` with optional
    /// vendor and product filters, handing out its handle. Rejected
    /// arguments leave the watch unchanged.
    pub fn on(&mut self, method: String, vendor_id: Option<u32>, product_id: Option<u32>) -> (r:
        Result<u64, WatchError>)
        requires
            old(self).wf(),
            old(self).registry.next_handle < u64::MAX,
        ensures
            final(self).wf(),
            final(self).phase == old(self).phase,
            final(self).baseline == old(self).baseline,
            match r {
                Ok(h) => {
                    &&& registration_valid(method@, vendor_id, product_id)
                    &&& h == old(self).registry.next_handle
                    &&& final(self).registry.listeners@ == old(self).registry.listeners@.push(
                        (h, parsed_subscription(method@, vendor_id, product_id)),
                    )
                    &&& final(self).registry.next_handle == old(self).registry.next_handle + 1
                },
                Err(e) => {
                    &&& *final(self) == *old(self)
                    &&& !registration_valid(method@, vendor_id, product_id)
                    &&& (e == WatchError::UnknownMethod || e == WatchError::InvalidFilter)
                },
            },
    {
        match WatchSubscription::parse(method, vendor_id, product_id) {
            Ok(sub) => Ok(self.registry.register(sub)),
            Err(e) => Err(e),
        }
    }

    /// Removes the listener with this handle; reports whether one was
    /// present.
    pub fn unregister(&mut self, handle: u64) -> (removed: bool)
        requires
            old(self).wf(),
        ensures
            final(self).wf(),
            final(self).phase == old(self).phase,
            final(self).baseline == old(self).baseline,
            final(self).registry.listeners@ == crate::registry::remove_handle(
                old(self).registry.listeners@,
                handle,
            ),
            final(self).registry.next_handle == old(self).registry.next_handle,
            removed == crate::registry::has_handle(old(self).registry.listeners@, handle),
    {
        self.registry.unregister(handle)
    }

    /// The handles of the listeners that receive this event, in
    /// registration order.
    pub fn dispatch(&self, event: &Event) -> (r: Vec<u64>)
        ensures
            r@ == matching_spec(self.registry.listeners@, event@),
    {
        self.registry.matching_handles(event)
    }

    /// One poll cycle, fed the outcome of one enumeration pass.
    ///
    /// A failed scan changes nothing and reports nothing: the watch
    /// keeps its last known-good baseline and stays operational. The
    /// first successful scan of a starting watch records the baseline
    /// silently. A running watch reports the diff against its baseline
    /// and adopts the scanned set as the new baseline. A stopped watch
    /// never reports anything.
    pub fn poll_step(&mut self, scan: Result<DeviceSet, WatchError>) -> (events: Vec<Event>)
        requires
            old(self).wf(),
            scan matches Ok(s) ==> s.wf(),
        ensures
            final(self).wf(),
            final(self).registry == old(self).registry,
            match scan {
                Err(_) => *final(self) == *old(self) && events@.len() == 0,
                Ok(s) => match old(self).phase {
                    WatchPhase::Starting => {
                        &&& final(self).phase == WatchPhase::Running
                        &&& final(self).baseline@ == s@
                        &&& events@.len() == 0
                    },
                    WatchPhase::Running => {
                        &&& final(self).phase == WatchPhase::Running
                        &&& final(self).baseline@ == s@
                        &&& events.deep_view() == diff_spec(old(self).baseline@, s@)
                    },
                    WatchPhase::Stopped => *final(self) == *old(self) && events@.len() == 0,
                },
            },
    {
        match scan {
            Err(_) => Vec::new(),
            Ok(s) => match self.phase {
                WatchPhase::Stopped => Vec::new(),
                WatchPhase::Starting => {
                    self.baseline = s;
                    self.phase = WatchPhase::Running;
                    Vec::new()
                },
                WatchPhase::Running => {
                    let events = diff(&self.baseline, &s);
                    self.baseline = s;
                    events
                },
            },
        }
    }

    /// Tears the watch down: no further cycle reports anything, and
    /// every listener is dropped, so no callback is invoked after
    /// teardown.
    pub fn stop(&mut self)
        ensures
            final(self).phase == WatchPhase::Stopped,
            final(self).baseline == old(self).baseline,
            final(self).registry.listeners@ == Seq::<(u64, WatchSubscription)>::empty(),
            final(self).registry.next_handle == old(self).registry.next_handle,
            old(self).wf() ==> final(self).wf(),
    {
        self.phase = WatchPhase::Stopped;
        self.registry.listeners = Vec::new();
        proof {
            assert(self.registry.listeners@ =~= Seq::<(u64, WatchSubscription)>::empty());
        }
    }
}

} // verus!
