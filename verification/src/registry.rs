//! The subscription registry: listeners with event-kind, vendor and
//! product filters, keyed by a stable handle.
//!
//! A listener receives an event exactly when its event-kind filter
//! admits the event's kind and each of its set identifier filters
//! equals the device's identifier. The registry hands out fresh
//! handles, removes listeners by handle, and reports which listeners
//! match one event; per-listener delivery order is production order.

use vstd::prelude::*;

use crate::diff::Event;
use crate::diff::EventKind;
use crate::diff::EventView;
use crate::utils::WatchError;
use crate::utils::filter_in_range;
use crate::utils::get_optional_u16;
use crate::utils::narrowed_filter;

verus! {

/// Which event kinds a listener asks for.
#[derive(Debug, Clone, Copy, PartialEq, Eq, Structural)]
pub enum EventFilter {
    /// Only devices that arrive.
    Arrived,
    /// Only devices that leave.
    Left,
    /// Every event.
    Both,
}

/// One registered listener's filters. The callback itself lives with
/// the adaptation layer, keyed by the handle the registry hands out.
#[derive(Debug, Clone, Copy, PartialEq, Eq)]
pub struct WatchSubscription {
    /// Which event kinds the listener asks for.
    pub filter_kind: EventFilter,
    /// If set, the device's vendor identifier must equal it.
    pub vendor_id: Option<u16>,
    /// If set, the device's product identifier must equal it.
    pub product_id: Option<u16>,
}

/// Whether the event-kind filter admits the kind.
pub open spec fn kind_matches(filter: EventFilter, kind: EventKind) -> bool {
    match filter {
        EventFilter::Arrived => kind == EventKind::Arrived,
        EventFilter::Left => kind == EventKind::Left,
        EventFilter::Both => true,
    }
}

/// Whether a listener with these filters receives this event: the
/// kind filter admits the kind, and each set identifier filter equals
/// the device's identifier. A listener with no filters set receives
/// every event.
pub open spec fn matches_spec(sub: WatchSubscription, e: EventView) -> bool {
    &&& kind_matches(sub.filter_kind, e.kind)
    &&& match sub.vendor_id {
        Some(v) => e.device.vendor_id == v,
        None => true,
    }
    &&& match sub.product_id {
        Some(p) => e.device.product_id == p,
        None => true,
    }
}

/// Whether a registration call with these arguments is accepted: the
/// event name is known and both optional identifiers fit the 16-bit
/// range.
pub open spec fn registration_valid(
    method: Seq<char>,
    vendor_id: Option<u32>,
    product_id: Option<u32>,
) -> bool {
    &&& (method == "connect"@ || method == "disconnect"@)
    &&& filter_in_range(vendor_id)
    &&& filter_in_range(product_id)
}

/// The listener an accepted registration call denotes.
pub open spec fn parsed_subscription(
    method: Seq<char>,
    vendor_id: Option<u32>,
    product_id: Option<u32>,
) -> WatchSubscription {
    WatchSubscription {
        filter_kind: if method == "connect"@ {
            EventFilter::Arrived
        } else {
            EventFilter::Left
        },
        vendor_id: narrowed_filter(vendor_id),
        product_id: narrowed_filter(product_id),
    }
}

impl WatchSubscription {
    /// Builds a listener from a registration call: the event name
    /// `"connect"` asks for arrivals, `"disconnect"` for departures;
    /// the optional identifiers are narrowed to the 16-bit range and
    /// rejected when they do not fit.
    pub fn parse(method: String, vendor_id: Option<u32>, product_id: Option<u32>) -> (r: Result<
        WatchSubscription,
        WatchError,
    >)
        ensures
            match r {
                Ok(sub) => {
                    &&& registration_valid(method@, vendor_id, product_id)
                    &&& sub == parsed_subscription(method@, vendor_id, product_id)
                },
                Err(e) => {
                    ||| {
                        &&& e == WatchError::UnknownMethod
                        &&& method@ != "connect"@
                        &&& method@ != "disconnect"@
                    }
                    ||| {
                        &&& e == WatchError::InvalidFilter
                        &&& (method@ == "connect"@ || method@ == "disconnect"@)
                        &&& !(filter_in_range(vendor_id) && filter_in_range(product_id))
                    }
                },
            },
    {
        let connect = "connect".to_owned();
        let disconnect = "disconnect".to_owned();
        let filter_kind = if method == connect {
            EventFilter::Arrived
        } else if method == disconnect {
            EventFilter::Left
        } else {
            return Err(WatchError::UnknownMethod);
        };
        let vendor = match get_optional_u16(vendor_id) {
            Ok(v) => v,
            Err(e) => {
                return Err(e);
            },
        };
        let product = match get_optional_u16(product_id) {
            Ok(p) => p,
            Err(e) => {
                return Err(e);
            },
        };
        Ok(WatchSubscription { filter_kind, vendor_id: vendor, product_id: product })
    }

    /// Whether this listener receives the event.
    pub fn matches(&self, event: &Event) -> (r: bool)
        ensures
            r == matches_spec(*self, event@),
    {
        let kind_ok = match (self.filter_kind, event.kind) {
            (EventFilter::Both, _) => true,
            (EventFilter::Arrived, EventKind::Arrived) => true,
            (EventFilter::Left, EventKind::Left) => true,
            _ => false,
        };
        if !kind_ok {
            return false;
        }
        if let Some(v) = self.vendor_id {
            if v != event.device.vendor_id {
                return false;
            }
        }
        if let Some(p) = self.product_id {
            if p != event.device.product_id {
                return false;
            }
        }
        true
    }
}

/// Whether some entry of `l` carries the handle `h`.
pub open spec fn has_handle(l: Seq<(u64, WatchSubscription)>, h: u64) -> bool {
    exists|i: int| 0 <= i < l.len() && l[i].0 == h
}

/// No two entries of `l` share a handle.
pub open spec fn distinct_handles(l: Seq<(u64, WatchSubscription)>) -> bool {
    forall|i: int, j: int| 0 <= i < j < l.len() ==> l[i].0 != l[j].0
}

/// `l` without every entry that carries the handle `h`.
pub open spec fn remove_handle(l: Seq<(u64, WatchSubscription)>, h: u64) -> Seq<
    (u64, WatchSubscription),
>
    decreases l.len(),
{
    if l.len() == 0 {
        Seq::empty()
    } else {
        remove_handle(l.drop_last(), h) + if l.last().0 == h {
            Seq::empty()
        } else {
            seq![l.last()]
        }
    }
}

/// The handles of the listeners of `l` that receive `e`, in
/// registration order.
pub open spec fn matching_spec(l: Seq<(u64, WatchSubscription)>, e: EventView) -> Seq<u64>
    decreases l.len(),
{
    if l.len() == 0 {
        Seq::empty()
    } else {
        matching_spec(l.drop_last(), e) + if matches_spec(l.last().1, e) {
            seq![l.last().0]
        } else {
            Seq::empty()
        }
    }
}

/// The thread-safe collection of active listeners. Concurrent access
/// is the adaptation layer's concern: it guards one `Registry` behind
/// a lock shared by the poll loop and the callers.
pub struct Registry {
    /// The active listeners with their handles, in registration order.
    pub listeners: Vec<(u64, WatchSubscription)>,
    /// The handle the next registration receives; above every handle
    /// ever handed out.
    pub next_handle: u64,
}

impl Registry {
    /// Handles are pairwise distinct and below `next_handle`.
    pub open spec fn wf(&self) -> bool {
        &&& distinct_handles(self.listeners@)
        &&& forall|i: int|
            0 <= i < self.listeners@.len() ==> (#[trigger] self.listeners@[i]).0
                < self.next_handle
    }

    /// An empty registry.
    pub fn new() -> (r: Registry)
        ensures
            r.wf(),
            r.listeners@ == Seq::<(u64, WatchSubscription)>::empty(),
            r.next_handle == 0,
    {
        let r = Registry { listeners: Vec::new(), next_handle: 0 };
        proof {
            assert(r.listeners@ =~= Seq::<(u64, WatchSubscription)>::empty());
        }
        r
    }

    /// Whether a further listener can still be registered.
    pub fn can_register(&self) -> (r: bool)
        ensures
            r == (self.next_handle < u64::MAX),
    {
        self.next_handle < u64::MAX
    }

    /// Adds a listener and hands out its fresh handle.
    pub fn register(&mut self, sub: WatchSubscription) -> (h: u64)
        requires
            old(self).wf(),
            old(self).next_handle < u64::MAX,
        ensures
            final(self).wf(),
            h == old(self).next_handle,
            final(self).listeners@ == old(self).listeners@.push((h, sub)),
            final(self).next_handle == old(self).next_handle + 1,
            !has_handle(old(self).listeners@, h),
    {
        let h = self.next_handle;
        self.listeners.push((h, sub));
        self.next_handle = h + 1;
        h
    }

    /// Removes every listener with this handle; reports whether one
    /// was present.
    pub fn unregister(&mut self, handle: u64) -> (removed: bool)
        ensures
            final(self).listeners@ == remove_handle(old(self).listeners@, handle),
            final(self).next_handle == old(self).next_handle,
            removed == has_handle(old(self).listeners@, handle),
            old(self).wf() ==> final(self).wf(),
    {
        let ghost l0 = self.listeners@;
        let mut kept: Vec<(u64, WatchSubscription)> = Vec::new();
        let mut removed = false;
        let mut i: usize = 0;
        while i < self.listeners.len()
            invariant
                i <= self.listeners@.len(),
                l0 == self.listeners@,
                kept@ == remove_handle(l0.take(i as int), handle),
                removed == has_handle(l0.take(i as int), handle),
            decreases self.listeners@.len() - i,
        {
            let ghost before = kept@;
            proof {
                assert(l0.take(i as int + 1).drop_last() =~= l0.take(i as int));
                assert(l0.take(i as int + 1).last() == l0[i as int]);
            }
            let entry = self.listeners[i];
            if entry.0 == handle {
                removed = true;
                proof {
                    assert(has_handle(l0.take(i as int + 1), handle));
                }
            } else {
                kept.push(entry);
                proof {
                    assert(kept@ =~= before.push(l0[i as int]));
                    let t0 = l0.take(i as int);
                    let t1 = l0.take(i as int + 1);
                    if has_handle(t1, handle) {
                        let k = choose|k: int|
                            0 <= k < t1.len() && (#[trigger] t1[k]).0 == handle;
                        if k < i as int {
                            assert(t0[k].0 == handle);
                            assert(has_handle(t0, handle));
                        }
                    }
                    if has_handle(t0, handle) {
                        let k = choose|k: int| 0 <= k < t0.len() && (#[trigger] t0[k]).0 == handle;
                        assert(t1[k].0 == handle);
                        assert(has_handle(t1, handle));
                    }
                }
            }
            i += 1;
        }
        proof {
            assert(l0.take(l0.len() as int) =~= l0);
            if old(self).wf() {
                lemma_remove_handle(l0, handle);
            }
        }
        self.listeners = kept;
        removed
    }

    /// The handles of the listeners that receive this event, in
    /// registration order. The adaptation layer pushes the event to
    /// each handle's callback without waiting on any of them.
    pub fn matching_handles(&self, event: &Event) -> (r: Vec<u64>)
        ensures
            r@ == matching_spec(self.listeners@, event@),
    {
        let l = &self.listeners;
        let mut r: Vec<u64> = Vec::new();
        let mut i: usize = 0;
        while i < l.len()
            invariant
                i <= l@.len(),
                l@ == self.listeners@,
                r@ == matching_spec(l@.take(i as int), event@),
            decreases l@.len() - i,
        {
            let ghost before = r@;
            proof {
                assert(l@.take(i as int + 1).drop_last() =~= l@.take(i as int));
                assert(l@.take(i as int + 1).last() == l@[i as int]);
            }
            if l[i].1.matches(event) {
                r.push(l[i].0);
                proof {
                    assert(r@ =~= before.push(l@[i as int].0));
                }
            }
            i += 1;
        }
        proof {
            assert(l@.take(l@.len() as int) =~= l@);
        }
        r
    }
}

/// Removing a handle from a well-formed listener list keeps it
/// well-formed, drops exactly that handle, and keeps every entry an
/// entry of the original list.
pub proof fn lemma_remove_handle(l: Seq<(u64, WatchSubscription)>, h: u64)
    requires
        distinct_handles(l),
    ensures
        distinct_handles(remove_handle(l, h)),
        forall|k: int|
            0 <= k < remove_handle(l, h).len() ==> exists|i: int|
                0 <= i < l.len() && #[trigger] remove_handle(l, h)[k] == l[i],
    decreases l.len(),
{
    if l.len() > 0 {
        let rest = l.drop_last();
        assert(forall|i: int| 0 <= i < rest.len() ==> #[trigger] rest[i] == l[i]);
        lemma_remove_handle(rest, h);
        let rh = remove_handle(l, h);
        let front = remove_handle(rest, h);
        assert forall|k: int|
            0 <= k < rh.len() implies exists|i: int| 0 <= i < l.len() && #[trigger] rh[k]
            == l[i] by {
            if k < front.len() {
                assert(rh[k] == front[k]);
                let i = choose|i: int| 0 <= i < rest.len() && front[k] == rest[i];
                assert(rh[k] == l[i]);
            } else {
                assert(rh[k] == l.last());
                assert(rh[k] == l[l.len() - 1]);
            }
        }
        if l.last().0 != h {
            assert forall|a: int, b: int| 0 <= a < b < rh.len() implies rh[a].0 != rh[b].0 by {
                if b == front.len() {
                    assert(rh[b] == l.last());
                    assert(rh[a] == front[a]);
                    let i = choose|i: int| 0 <= i < rest.len() && front[a] == rest[i];
                    assert(l[i].0 == front[a].0);
                    assert(l[i].0 != l[l.len() - 1].0);
                } else {
                    assert(rh[a] == front[a] && rh[b] == front[b]);
                }
            }
        }
    }
}

/// No entry of `remove_handle(l, h)` carries the handle `h`.
pub proof fn lemma_remove_handle_gone(l: Seq<(u64, WatchSubscription)>, h: u64)
    ensures
        forall|k: int|
            0 <= k < remove_handle(l, h).len() ==> (#[trigger] remove_handle(l, h)[k]).0 != h,
    decreases l.len(),
{
    if l.len() > 0 {
        lemma_remove_handle_gone(l.drop_last(), h);
        let rh = remove_handle(l, h);
        let front = remove_handle(l.drop_last(), h);
        assert forall|k: int| 0 <= k < rh.len() implies (#[trigger] rh[k]).0 != h by {
            if k < front.len() {
                assert(rh[k] == front[k]);
            } else {
                assert(rh[k] == l.last());
            }
        }
    }
}

/// Whether the listener list `l` delivers `e` to the handle `h`: some
/// entry carries `h` and its filters admit `e`.
pub open spec fn h_matches(l: Seq<(u64, WatchSubscription)>, h: u64, e: EventView) -> bool {
    exists|i: int| 0 <= i < l.len() && l[i].0 == h && matches_spec(l[i].1, e)
}

/// The stream of events the handle `h` receives when the events `evs`
/// are dispatched, in order, over the listener list `l`.
pub open spec fn delivered_to(
    l: Seq<(u64, WatchSubscription)>,
    evs: Seq<EventView>,
    h: u64,
) -> Seq<EventView>
    decreases evs.len(),
{
    if evs.len() == 0 {
        Seq::empty()
    } else {
        delivered_to(l, evs.drop_last(), h) + if h_matches(l, h, evs.last()) {
            seq![evs.last()]
        } else {
            Seq::empty()
        }
    }
}

/// The events of `evs` a listener with the filters `sub` receives, in
/// production order.
pub open spec fn stream_for(sub: WatchSubscription, evs: Seq<EventView>) -> Seq<EventView>
    decreases evs.len(),
{
    if evs.len() == 0 {
        Seq::empty()
    } else {
        stream_for(sub, evs.drop_last()) + if matches_spec(sub, evs.last()) {
            seq![evs.last()]
        } else {
            Seq::empty()
        }
    }
}

/// A handle stands among the matching handles of one event exactly
/// when the listener list delivers the event to it: this ties the
/// handles `matching_handles` reports to the delivered streams the
/// laws below speak of.
pub proof fn lemma_matching_handles_membership(l: Seq<(u64, WatchSubscription)>, e: EventView)
    ensures
        forall|h: u64| #[trigger] matching_spec(l, e).contains(h) == h_matches(l, h, e),
    decreases l.len(),
{
    if l.len() > 0 {
        let rest = l.drop_last();
        lemma_matching_handles_membership(rest, e);
        assert(forall|i: int| 0 <= i < rest.len() ==> #[trigger] rest[i] == l[i]);
        let ms = matching_spec(l, e);
        let front = matching_spec(rest, e);
        assert forall|h: u64| #[trigger] ms.contains(h) == h_matches(l, h, e) by {
            if ms.contains(h) {
                let k = choose|k: int| 0 <= k < ms.len() && ms[k] == h;
                if k < front.len() {
                    assert(ms[k] == front[k]);
                    assert(front.contains(h));
                    let i = choose|i: int| 0 <= i < rest.len() && rest[i].0 == h && matches_spec(rest[i].1, e);
                    assert(l[i].0 == h && matches_spec(l[i].1, e));
                    assert(h_matches(l, h, e));
                } else {
                    assert(matches_spec(l.last().1, e));
                    assert(ms[k] == l.last().0);
                    assert(l[l.len() - 1].0 == h && matches_spec(l[l.len() - 1].1, e));
                    assert(h_matches(l, h, e));
                }
            }
            if h_matches(l, h, e) {
                let i = choose|i: int| 0 <= i < l.len() && l[i].0 == h && matches_spec(l[i].1, e);
                if i < l.len() - 1 {
                    assert(rest[i].0 == h && matches_spec(rest[i].1, e));
                    assert(h_matches(rest, h, e));
                    assert(front.contains(h));
                    let k = choose|k: int| 0 <= k < front.len() && front[k] == h;
                    assert(ms[k] == h);
                    assert(ms.contains(h));
                } else {
                    assert(matches_spec(l.last().1, e));
                    assert(ms[front.len() as int] == l.last().0);
                    assert(ms.contains(h));
                }
            }
        }
    }
}

/// A listener whose vendor filter is set never receives an event whose
/// device carries another vendor identifier, whatever the event
/// stream.
pub proof fn lemma_vendor_filter_respected(
    l: Seq<(u64, WatchSubscription)>,
    evs: Seq<EventView>,
    h: u64,
    v: u16,
)
    requires
        forall|i: int|
            0 <= i < l.len() && (#[trigger] l[i]).0 == h ==> l[i].1.vendor_id == Some(v),
    ensures
        forall|k: int|
            0 <= k < delivered_to(l, evs, h).len() ==> (#[trigger] delivered_to(l, evs, h)[
                k
            ]).device.vendor_id == v,
    decreases evs.len(),
{
    if evs.len() > 0 {
        lemma_vendor_filter_respected(l, evs.drop_last(), h, v);
        let d = delivered_to(l, evs, h);
        let front = delivered_to(l, evs.drop_last(), h);
        assert forall|k: int|
            0 <= k < d.len() implies (#[trigger] d[k]).device.vendor_id == v by {
            if k < front.len() {
                assert(d[k] == front[k]);
            } else {
                assert(h_matches(l, h, evs.last()));
                let i = choose|i: int|
                    0 <= i < l.len() && l[i].0 == h && matches_spec(l[i].1, evs.last());
                assert(d[k] == evs.last());
            }
        }
    }
}

/// Every listener registered under one handle with the filters `sub`
/// receives exactly the matching events, in production order.
pub proof fn lemma_per_listener_stream(
    l: Seq<(u64, WatchSubscription)>,
    evs: Seq<EventView>,
    h: u64,
    sub: WatchSubscription,
)
    requires
        has_handle(l, h),
        forall|i: int| 0 <= i < l.len() && (#[trigger] l[i]).0 == h ==> l[i].1 == sub,
    ensures
        delivered_to(l, evs, h) == stream_for(sub, evs),
    decreases evs.len(),
{
    if evs.len() > 0 {
        lemma_per_listener_stream(l, evs.drop_last(), h, sub);
        assert(h_matches(l, h, evs.last()) == matches_spec(sub, evs.last())) by {
            if h_matches(l, h, evs.last()) {
                let i = choose|i: int|
                    0 <= i < l.len() && l[i].0 == h && matches_spec(l[i].1, evs.last());
                assert(l[i].1 == sub);
            }
            if matches_spec(sub, evs.last()) {
                let i = choose|i: int| 0 <= i < l.len() && (#[trigger] l[i]).0 == h;
                assert(l[i].1 == sub);
                assert(h_matches(l, h, evs.last()));
            }
        }
    }
}

/// A listener list without the handle `h` delivers nothing to `h`.
pub proof fn lemma_no_handle_no_delivery(
    l: Seq<(u64, WatchSubscription)>,
    evs: Seq<EventView>,
    h: u64,
)
    requires
        !has_handle(l, h),
    ensures
        delivered_to(l, evs, h) == Seq::<EventView>::empty(),
    decreases evs.len(),
{
    if evs.len() > 0 {
        lemma_no_handle_no_delivery(l, evs.drop_last(), h);
        if h_matches(l, h, evs.last()) {
            let i = choose|i: int|
                0 <= i < l.len() && l[i].0 == h && matches_spec(l[i].1, evs.last());
            assert(has_handle(l, h));
        }
        assert(delivered_to(l, evs, h) =~= Seq::<EventView>::empty());
    }
}

/// Registering a listener and unregistering it before the next poll
/// cycle guarantees it receives zero events from that cycle, whatever
/// the cycle produces.
pub proof fn lemma_register_unregister_silent(
    l0: Seq<(u64, WatchSubscription)>,
    sub: WatchSubscription,
    h: u64,
    evs: Seq<EventView>,
)
    ensures
        delivered_to(remove_handle(l0.push((h, sub)), h), evs, h) == Seq::<EventView>::empty(),
{
    let l1 = remove_handle(l0.push((h, sub)), h);
    lemma_remove_handle_gone(l0.push((h, sub)), h);
    if has_handle(l1, h) {
        let i = choose|i: int| 0 <= i < l1.len() && (#[trigger] l1[i]).0 == h;
        assert(false);
    }
    lemma_no_handle_no_delivery(l1, evs, h);
}

} // verus!
