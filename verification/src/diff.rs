//! The change detector: the pure difference between two device sets,
//! classified into attach and detach events.
//!
//! A device identifier present only in the newer set yields an
//! `Arrived` event carrying the newer snapshot; one present only in
//! the older set yields a `Left` event carrying the older snapshot, so
//! a consumer of a `Left` event sees the last known attributes of the
//! device. A device present in both sets yields nothing, even when its
//! description changed: identity alone drives events. All `Left`
//! events of one invocation come before any `Arrived` event.

use vstd::prelude::*;

use crate::device::DeviceSet;
use crate::device::DeviceView;
use crate::device::UsbDevice;
use crate::device::has_id;
use crate::device::id_set;

verus! {

/// What happened to a device between two enumeration passes.
#[derive(Debug, Clone, Copy, PartialEq, Eq, Structural)]
pub enum EventKind {
    /// The device is attached now and was not before.
    Arrived,
    /// The device was attached before and is not now.
    Left,
}

/// One device change, immutable once produced.
#[derive(Debug, Clone, PartialEq, Eq)]
pub struct Event {
    pub kind: EventKind,
    pub device: UsbDevice,
}

/// The mathematical image of an `Event`.
#[verifier::ext_equal]
pub ghost struct EventView {
    pub kind: EventKind,
    pub device: DeviceView,
}

impl View for Event {
    type V = EventView;

    open spec fn view(&self) -> EventView {
        EventView { kind: self.kind, device: self.device@ }
    }
}

impl DeepView for Event {
    type V = EventView;

    open spec fn deep_view(&self) -> EventView {
        self.view()
    }
}

/// The `Left` events of one diff: one per device of `prev` whose
/// identifier is absent from `cur`, in the order of `prev`.
pub open spec fn left_events(prev: Seq<DeviceView>, cur: Seq<DeviceView>) -> Seq<EventView>
    decreases prev.len(),
{
    if prev.len() == 0 {
        Seq::empty()
    } else {
        left_events(prev.drop_last(), cur) + if has_id(cur, prev.last().id) {
            Seq::empty()
        } else {
            seq![EventView { kind: EventKind::Left, device: prev.last() }]
        }
    }
}

/// The `Arrived` events of one diff: one per device of `cur` whose
/// identifier is absent from `prev`, in the order of `cur`.
pub open spec fn arrived_events(prev: Seq<DeviceView>, cur: Seq<DeviceView>) -> Seq<EventView>
    decreases cur.len(),
{
    if cur.len() == 0 {
        Seq::empty()
    } else {
        arrived_events(prev, cur.drop_last()) + if has_id(prev, cur.last().id) {
            Seq::empty()
        } else {
            seq![EventView { kind: EventKind::Arrived, device: cur.last() }]
        }
    }
}

/// The full event sequence of one diff: every `Left`, then every
/// `Arrived`.
pub open spec fn diff_spec(prev: Seq<DeviceView>, cur: Seq<DeviceView>) -> Seq<EventView> {
    left_events(prev, cur) + arrived_events(prev, cur)
}

/// Computes the events that turn `prev` into `cur`: a `Left` event for
/// each device only `prev` holds, then an `Arrived` event for each
/// device only `cur` holds.
pub fn diff(prev: &DeviceSet, cur: &DeviceSet) -> (events: Vec<Event>)
    ensures
        events.deep_view() == diff_spec(prev@, cur@),
{
    let mut events: Vec<Event> = Vec::new();
    let mut i: usize = 0;
    while i < prev.devices.len()
        invariant
            i <= prev.devices.len(),
            events.deep_view() == left_events(prev@.take(i as int), cur@),
        decreases prev.devices.len() - i,
    {
        let ghost before = events.deep_view();
        proof {
            assert(prev@.take(i as int + 1).drop_last() =~= prev@.take(i as int));
            assert(prev@.take(i as int + 1).last() == prev@[i as int]);
        }
        if !cur.contains_id(&prev.devices[i].id) {
            let device = prev.devices[i].duplicate();
            events.push(Event { kind: EventKind::Left, device });
            proof {
                assert(events.deep_view() =~= before.push(
                    EventView { kind: EventKind::Left, device: prev@[i as int] },
                ));
                assert(events.deep_view() =~= left_events(prev@.take(i as int + 1), cur@));
            }
        } else {
            proof {
                assert(events.deep_view() =~= left_events(prev@.take(i as int + 1), cur@));
            }
        }
        i += 1;
    }
    proof {
        assert(prev@.take(prev@.len() as int) =~= prev@);
    }
    let ghost lefts = events.deep_view();
    let mut j: usize = 0;
    while j < cur.devices.len()
        invariant
            j <= cur.devices.len(),
            lefts == left_events(prev@, cur@),
            events.deep_view() == lefts + arrived_events(prev@, cur@.take(j as int)),
        decreases cur.devices.len() - j,
    {
        let ghost before = events.deep_view();
        proof {
            assert(cur@.take(j as int + 1).drop_last() =~= cur@.take(j as int));
            assert(cur@.take(j as int + 1).last() == cur@[j as int]);
        }
        if !prev.contains_id(&cur.devices[j].id) {
            let device = cur.devices[j].duplicate();
            events.push(Event { kind: EventKind::Arrived, device });
            proof {
                assert(events.deep_view() =~= before.push(
                    EventView { kind: EventKind::Arrived, device: cur@[j as int] },
                ));
                assert(events.deep_view() =~= lefts + arrived_events(
                    prev@,
                    cur@.take(j as int + 1),
                ));
            }
        } else {
            proof {
                assert(events.deep_view() =~= lefts + arrived_events(
                    prev@,
                    cur@.take(j as int + 1),
                ));
            }
        }
        j += 1;
    }
    proof {
        assert(cur@.take(cur@.len() as int) =~= cur@);
    }
    events
}

/// Whether `evs` holds a `Left` event for the identifier `id`.
pub open spec fn has_left(evs: Seq<EventView>, id: Seq<char>) -> bool {
    exists|i: int| 0 <= i < evs.len() && evs[i].kind == EventKind::Left && evs[i].device.id == id
}

/// The devices of `base` that no `Left` event of `evs` removes, in the
/// order of `base`.
pub open spec fn kept_devices(base: Seq<DeviceView>, evs: Seq<EventView>) -> Seq<DeviceView>
    decreases base.len(),
{
    if base.len() == 0 {
        Seq::empty()
    } else {
        kept_devices(base.drop_last(), evs) + if has_left(evs, base.last().id) {
            Seq::empty()
        } else {
            seq![base.last()]
        }
    }
}

/// The devices the `Arrived` events of `evs` carry, in event order.
pub open spec fn arrived_devices(evs: Seq<EventView>) -> Seq<DeviceView>
    decreases evs.len(),
{
    if evs.len() == 0 {
        Seq::empty()
    } else {
        arrived_devices(evs.drop_last()) + if evs.last().kind == EventKind::Arrived {
            seq![evs.last().device]
        } else {
            Seq::empty()
        }
    }
}

/// The device list that replaying `evs` on `base` produces: the kept
/// devices of `base`, then every arrived device.
pub open spec fn apply_spec(base: Seq<DeviceView>, evs: Seq<EventView>) -> Seq<DeviceView> {
    kept_devices(base, evs) + arrived_devices(evs)
}

/// Whether `events` holds a `Left` event for the identifier `id`.
fn events_remove_id(events: &Vec<Event>, id: &String) -> (r: bool)
    ensures
        r == has_left(events.deep_view(), id@),
{
    let mut i: usize = 0;
    while i < events.len()
        invariant
            i <= events.len(),
            forall|k: int|
                0 <= k < i ==> !(events.deep_view()[k].kind == EventKind::Left
                    && events.deep_view()[k].device.id == id@),
        decreases events.len() - i,
    {
        if events[i].kind == EventKind::Left && events[i].id_equals(id) {
            assert(events.deep_view()[i as int].kind == EventKind::Left
                && events.deep_view()[i as int].device.id == id@);
            return true;
        }
        i += 1;
    }
    false
}

impl Event {
    /// Whether the event's device carries the identifier `id`.
    pub fn id_equals(&self, id: &String) -> (r: bool)
        ensures
            r == (self@.device.id == id@),
    {
        self.device.id == *id
    }
}

/// Replays a diff: removes from `base` every device a `Left` event
/// names and appends the device of every `Arrived` event.
pub fn apply(base: &DeviceSet, events: &Vec<Event>) -> (devices: Vec<UsbDevice>)
    ensures
        devices.deep_view() == apply_spec(base@, events.deep_view()),
{
    let ghost evs = events.deep_view();
    let mut devices: Vec<UsbDevice> = Vec::new();
    let mut i: usize = 0;
    while i < base.devices.len()
        invariant
            i <= base.devices.len(),
            evs == events.deep_view(),
            devices.deep_view() == kept_devices(base@.take(i as int), evs),
        decreases base.devices.len() - i,
    {
        let ghost before = devices.deep_view();
        proof {
            assert(base@.take(i as int + 1).drop_last() =~= base@.take(i as int));
            assert(base@.take(i as int + 1).last() == base@[i as int]);
        }
        if !events_remove_id(events, &base.devices[i].id) {
            devices.push(base.devices[i].duplicate());
            proof {
                assert(devices.deep_view() =~= before.push(base@[i as int]));
                assert(devices.deep_view() =~= kept_devices(base@.take(i as int + 1), evs));
            }
        } else {
            proof {
                assert(devices.deep_view() =~= kept_devices(base@.take(i as int + 1), evs));
            }
        }
        i += 1;
    }
    proof {
        assert(base@.take(base@.len() as int) =~= base@);
    }
    let ghost kept = devices.deep_view();
    let mut j: usize = 0;
    while j < events.len()
        invariant
            j <= events.len(),
            evs == events.deep_view(),
            kept == kept_devices(base@, evs),
            devices.deep_view() == kept + arrived_devices(evs.take(j as int)),
        decreases events.len() - j,
    {
        let ghost before = devices.deep_view();
        proof {
            assert(evs.take(j as int + 1).drop_last() =~= evs.take(j as int));
            assert(evs.take(j as int + 1).last() == evs[j as int]);
        }
        if events[j].kind == EventKind::Arrived {
            devices.push(events[j].device.duplicate());
            proof {
                assert(devices.deep_view() =~= before.push(evs[j as int].device));
                assert(devices.deep_view() =~= kept + arrived_devices(evs.take(j as int + 1)));
            }
        } else {
            proof {
                assert(devices.deep_view() =~= kept + arrived_devices(evs.take(j as int + 1)));
            }
        }
        j += 1;
    }
    proof {
        assert(evs.take(evs.len() as int) =~= evs);
    }
    devices
}

/// Whether `evs` holds an `Arrived` event for the identifier `id`.
pub open spec fn has_arrived(evs: Seq<EventView>, id: Seq<char>) -> bool {
    exists|i: int|
        0 <= i < evs.len() && evs[i].kind == EventKind::Arrived && evs[i].device.id == id
}

proof fn lemma_left_events_kinds(prev: Seq<DeviceView>, cur: Seq<DeviceView>)
    ensures
        forall|k: int|
            0 <= k < left_events(prev, cur).len() ==> (#[trigger] left_events(prev, cur)[k]).kind
                == EventKind::Left,
    decreases prev.len(),
{
    if prev.len() > 0 {
        lemma_left_events_kinds(prev.drop_last(), cur);
    }
}

proof fn lemma_arrived_events_kinds(prev: Seq<DeviceView>, cur: Seq<DeviceView>)
    ensures
        forall|k: int|
            0 <= k < arrived_events(prev, cur).len() ==> (#[trigger] arrived_events(prev, cur)[
                k
            ]).kind == EventKind::Arrived,
    decreases cur.len(),
{
    if cur.len() > 0 {
        lemma_arrived_events_kinds(prev, cur.drop_last());
    }
}

/// All `Left` events of one diff stand before any `Arrived` event of
/// the same diff.
pub proof fn lemma_left_before_arrived(prev: Seq<DeviceView>, cur: Seq<DeviceView>)
    ensures
        forall|i: int, j: int|
            #![trigger diff_spec(prev, cur)[i], diff_spec(prev, cur)[j]]
            0 <= i < diff_spec(prev, cur).len() && 0 <= j < diff_spec(prev, cur).len()
                && diff_spec(prev, cur)[i].kind == EventKind::Left && diff_spec(prev, cur)[j].kind
                == EventKind::Arrived ==> i < j,
{
    lemma_left_events_kinds(prev, cur);
    lemma_arrived_events_kinds(prev, cur);
    let lefts = left_events(prev, cur);
    let arriveds = arrived_events(prev, cur);
    assert forall|i: int, j: int|
        #![trigger diff_spec(prev, cur)[i], diff_spec(prev, cur)[j]]
        0 <= i < diff_spec(prev, cur).len() && 0 <= j < diff_spec(prev, cur).len() && diff_spec(
            prev,
            cur,
        )[i].kind == EventKind::Left && diff_spec(prev, cur)[j].kind
        == EventKind::Arrived implies i < j by {
        if i >= lefts.len() {
            assert(diff_spec(prev, cur)[i] == arriveds[i - lefts.len()]);
        }
        if j < lefts.len() {
            assert(diff_spec(prev, cur)[j] == lefts[j]);
        }
    }
}

proof fn lemma_left_events_covered(prev: Seq<DeviceView>, cur: Seq<DeviceView>)
    requires
        forall|i: int| 0 <= i < prev.len() ==> has_id(cur, (#[trigger] prev[i]).id),
    ensures
        left_events(prev, cur).len() == 0,
    decreases prev.len(),
{
    if prev.len() > 0 {
        assert(forall|i: int|
            0 <= i < prev.drop_last().len() ==> #[trigger] prev.drop_last()[i] == prev[i]);
        lemma_left_events_covered(prev.drop_last(), cur);
        assert(has_id(cur, prev[prev.len() - 1].id));
    }
}

proof fn lemma_arrived_events_covered(prev: Seq<DeviceView>, cur: Seq<DeviceView>)
    requires
        forall|i: int| 0 <= i < cur.len() ==> has_id(prev, (#[trigger] cur[i]).id),
    ensures
        arrived_events(prev, cur).len() == 0,
    decreases cur.len(),
{
    if cur.len() > 0 {
        assert(forall|i: int|
            0 <= i < cur.drop_last().len() ==> #[trigger] cur.drop_last()[i] == cur[i]);
        lemma_arrived_events_covered(prev, cur.drop_last());
        assert(has_id(prev, cur[cur.len() - 1].id));
    }
}

/// Diffing a device set against itself yields no event at all.
pub proof fn lemma_diff_no_change(s: Seq<DeviceView>)
    ensures
        diff_spec(s, s) == Seq::<EventView>::empty(),
{
    assert forall|i: int| 0 <= i < s.len() implies has_id(s, (#[trigger] s[i]).id) by {
        assert(0 <= i < s.len() && s[i].id == s[i].id);
    }
    lemma_left_events_covered(s, s);
    lemma_arrived_events_covered(s, s);
    assert(diff_spec(s, s) =~= Seq::<EventView>::empty());
}

/// A diff holds a `Left` event for an identifier exactly when the
/// older set has it and the newer set lacks it: which departures are
/// reported depends on the two sets' membership alone, not on the
/// order enumeration listed the devices in.
pub proof fn lemma_left_events_membership(prev: Seq<DeviceView>, cur: Seq<DeviceView>)
    ensures
        forall|id: Seq<char>|
            #[trigger] has_left(left_events(prev, cur), id) == (has_id(prev, id) && !has_id(
                cur,
                id,
            )),
    decreases prev.len(),
{
    if prev.len() > 0 {
        let rest = prev.drop_last();
        lemma_left_events_membership(rest, cur);
        assert(forall|i: int| 0 <= i < rest.len() ==> #[trigger] rest[i] == prev[i]);
        let le = left_events(prev, cur);
        let front = left_events(rest, cur);
        assert forall|id: Seq<char>|
            #[trigger] has_left(le, id) == (has_id(prev, id) && !has_id(cur, id)) by {
            if has_left(le, id) {
                let k = choose|k: int|
                    0 <= k < le.len() && le[k].kind == EventKind::Left && le[k].device.id == id;
                if k < front.len() {
                    assert(le[k] == front[k]);
                    assert(has_left(front, id));
                    let m = choose|m: int| 0 <= m < rest.len() && rest[m].id == id;
                    assert(prev[m].id == id);
                    assert(has_id(prev, id));
                } else {
                    assert(!has_id(cur, prev.last().id));
                    assert(le[k].device == prev.last());
                    assert(prev[prev.len() - 1].id == id);
                    assert(has_id(prev, id));
                }
            }
            if has_id(prev, id) && !has_id(cur, id) {
                let i = choose|i: int| 0 <= i < prev.len() && prev[i].id == id;
                if i < prev.len() - 1 {
                    assert(rest[i].id == id);
                    assert(has_id(rest, id));
                    assert(has_left(front, id));
                    let k = choose|k: int|
                        0 <= k < front.len() && front[k].kind == EventKind::Left
                            && front[k].device.id == id;
                    assert(le[k] == front[k]);
                    assert(has_left(le, id));
                } else {
                    assert(prev.last().id == id);
                    assert(!has_id(cur, prev.last().id));
                    assert(le[front.len() as int].kind == EventKind::Left && le[front.len() as int].device.id
                        == id);
                    assert(has_left(le, id));
                }
            }
        }
    }
}

/// A diff holds an `Arrived` event for an identifier exactly when the
/// newer set has it and the older set lacks it: which arrivals are
/// reported depends on the two sets' membership alone, not on the
/// order enumeration listed the devices in.
pub proof fn lemma_arrived_events_membership(prev: Seq<DeviceView>, cur: Seq<DeviceView>)
    ensures
        forall|id: Seq<char>|
            #[trigger] has_arrived(arrived_events(prev, cur), id) == (has_id(cur, id) && !has_id(
                prev,
                id,
            )),
    decreases cur.len(),
{
    if cur.len() > 0 {
        let rest = cur.drop_last();
        lemma_arrived_events_membership(prev, rest);
        assert(forall|i: int| 0 <= i < rest.len() ==> #[trigger] rest[i] == cur[i]);
        let ae = arrived_events(prev, cur);
        let front = arrived_events(prev, rest);
        assert forall|id: Seq<char>|
            #[trigger] has_arrived(ae, id) == (has_id(cur, id) && !has_id(prev, id)) by {
            if has_arrived(ae, id) {
                let k = choose|k: int|
                    0 <= k < ae.len() && ae[k].kind == EventKind::Arrived && ae[k].device.id == id;
                if k < front.len() {
                    assert(ae[k] == front[k]);
                    assert(has_arrived(front, id));
                    let m = choose|m: int| 0 <= m < rest.len() && rest[m].id == id;
                    assert(cur[m].id == id);
                    assert(has_id(cur, id));
                } else {
                    assert(!has_id(prev, cur.last().id));
                    assert(ae[k].device == cur.last());
                    assert(cur[cur.len() - 1].id == id);
                    assert(has_id(cur, id));
                }
            }
            if has_id(cur, id) && !has_id(prev, id) {
                let i = choose|i: int| 0 <= i < cur.len() && cur[i].id == id;
                if i < cur.len() - 1 {
                    assert(rest[i].id == id);
                    assert(has_id(rest, id));
                    assert(has_arrived(front, id));
                    let k = choose|k: int|
                        0 <= k < front.len() && front[k].kind == EventKind::Arrived
                            && front[k].device.id == id;
                    assert(ae[k] == front[k]);
                    assert(has_arrived(ae, id));
                } else {
                    assert(cur.last().id == id);
                    assert(!has_id(prev, cur.last().id));
                    assert(ae[front.len() as int].kind == EventKind::Arrived
                        && ae[front.len() as int].device.id == id);
                    assert(has_arrived(ae, id));
                }
            }
        }
    }
}

proof fn lemma_arrived_devices_membership(evs: Seq<EventView>)
    ensures
        forall|id: Seq<char>|
            #[trigger] has_id(arrived_devices(evs), id) == has_arrived(evs, id),
    decreases evs.len(),
{
    if evs.len() > 0 {
        let rest = evs.drop_last();
        lemma_arrived_devices_membership(rest);
        assert(forall|i: int| 0 <= i < rest.len() ==> #[trigger] rest[i] == evs[i]);
        let ad = arrived_devices(evs);
        let front = arrived_devices(rest);
        assert forall|id: Seq<char>|
            #[trigger] has_id(ad, id) == has_arrived(evs, id) by {
            if has_id(ad, id) {
                let k = choose|k: int| 0 <= k < ad.len() && ad[k].id == id;
                if k < front.len() {
                    assert(ad[k] == front[k]);
                    assert(has_id(front, id));
                    let m = choose|m: int|
                        0 <= m < rest.len() && rest[m].kind == EventKind::Arrived
                            && rest[m].device.id == id;
                    assert(evs[m].kind == EventKind::Arrived && evs[m].device.id == id);
                    assert(has_arrived(evs, id));
                } else {
                    assert(evs.last().kind == EventKind::Arrived);
                    assert(ad[k] == evs.last().device);
                    assert(evs[evs.len() - 1].kind == EventKind::Arrived && evs[evs.len()
                        - 1].device.id == id);
                    assert(has_arrived(evs, id));
                }
            }
            if has_arrived(evs, id) {
                let i = choose|i: int|
                    0 <= i < evs.len() && evs[i].kind == EventKind::Arrived && evs[i].device.id
                        == id;
                if i < evs.len() - 1 {
                    assert(rest[i].kind == EventKind::Arrived && rest[i].device.id == id);
                    assert(has_arrived(rest, id));
                    assert(has_id(front, id));
                    let k = choose|k: int| 0 <= k < front.len() && front[k].id == id;
                    assert(ad[k] == front[k]);
                    assert(has_id(ad, id));
                } else {
                    assert(evs.last().kind == EventKind::Arrived);
                    assert(ad[front.len() as int] == evs.last().device);
                    assert(has_id(ad, id));
                }
            }
        }
    }
}

proof fn lemma_kept_devices_membership(base: Seq<DeviceView>, evs: Seq<EventView>)
    ensures
        forall|id: Seq<char>|
            #[trigger] has_id(kept_devices(base, evs), id) == (has_id(base, id) && !has_left(
                evs,
                id,
            )),
    decreases base.len(),
{
    if base.len() > 0 {
        let rest = base.drop_last();
        lemma_kept_devices_membership(rest, evs);
        assert(forall|i: int| 0 <= i < rest.len() ==> #[trigger] rest[i] == base[i]);
        let kd = kept_devices(base, evs);
        let front = kept_devices(rest, evs);
        assert forall|id: Seq<char>|
            #[trigger] has_id(kd, id) == (has_id(base, id) && !has_left(evs, id)) by {
            if has_id(kd, id) {
                let k = choose|k: int| 0 <= k < kd.len() && kd[k].id == id;
                if k < front.len() {
                    assert(kd[k] == front[k]);
                    assert(has_id(front, id));
                    let m = choose|m: int| 0 <= m < rest.len() && rest[m].id == id;
                    assert(base[m].id == id);
                    assert(has_id(base, id));
                } else {
                    assert(!has_left(evs, base.last().id));
                    assert(kd[k] == base.last());
                    assert(base[base.len() - 1].id == id);
                    assert(has_id(base, id));
                }
            }
            if has_id(base, id) && !has_left(evs, id) {
                let i = choose|i: int| 0 <= i < base.len() && base[i].id == id;
                if i < base.len() - 1 {
                    assert(rest[i].id == id);
                    assert(has_id(rest, id));
                    assert(has_id(front, id));
                    let k = choose|k: int| 0 <= k < front.len() && front[k].id == id;
                    assert(kd[k] == front[k]);
                    assert(has_id(kd, id));
                } else {
                    assert(base.last().id == id);
                    assert(!has_left(evs, base.last().id));
                    assert(kd[front.len() as int] == base.last());
                    assert(has_id(kd, id));
                }
            }
        }
    }
}

/// Replaying the events of `diff(a, b)` on `a` reconstructs exactly
/// the device identifiers of `b`.
pub proof fn lemma_diff_apply_round_trip(a: Seq<DeviceView>, b: Seq<DeviceView>)
    ensures
        id_set(apply_spec(a, diff_spec(a, b))) == id_set(b),
{
    let lefts = left_events(a, b);
    let arriveds = arrived_events(a, b);
    let evs = diff_spec(a, b);
    lemma_left_events_kinds(a, b);
    lemma_arrived_events_kinds(a, b);
    lemma_left_events_membership(a, b);
    lemma_arrived_events_membership(a, b);
    lemma_arrived_devices_membership(evs);
    lemma_kept_devices_membership(a, evs);
    assert forall|id: Seq<char>|
        #[trigger] has_id(apply_spec(a, evs), id) == has_id(b, id) by {
        assert(has_left(evs, id) == has_left(lefts, id)) by {
            if has_left(evs, id) {
                let k = choose|k: int|
                    0 <= k < evs.len() && evs[k].kind == EventKind::Left && evs[k].device.id == id;
                if k >= lefts.len() {
                    assert(evs[k] == arriveds[k - lefts.len()]);
                    assert(false);
                } else {
                    assert(evs[k] == lefts[k]);
                }
            }
            if has_left(lefts, id) {
                let k = choose|k: int|
                    0 <= k < lefts.len() && lefts[k].kind == EventKind::Left && lefts[k].device.id
                        == id;
                assert(evs[k] == lefts[k]);
            }
        }
        assert(has_arrived(evs, id) == has_arrived(arriveds, id)) by {
            if has_arrived(evs, id) {
                let k = choose|k: int|
                    0 <= k < evs.len() && evs[k].kind == EventKind::Arrived && evs[k].device.id
                        == id;
                if k < lefts.len() {
                    assert(evs[k] == lefts[k]);
                    assert(false);
                } else {
                    assert(evs[k] == arriveds[k - lefts.len()]);
                }
            }
            if has_arrived(arriveds, id) {
                let k = choose|k: int|
                    0 <= k < arriveds.len() && arriveds[k].kind == EventKind::Arrived
                        && arriveds[k].device.id == id;
                assert(evs[lefts.len() + k] == arriveds[k]);
            }
        }
        let kd = kept_devices(a, evs);
        let ad = arrived_devices(evs);
        assert(has_id(apply_spec(a, evs), id) == (has_id(kd, id) || has_id(ad, id))) by {
            if has_id(apply_spec(a, evs), id) {
                let k = choose|k: int|
                    0 <= k < apply_spec(a, evs).len() && apply_spec(a, evs)[k].id == id;
                if k < kd.len() {
                    assert(apply_spec(a, evs)[k] == kd[k]);
                } else {
                    assert(apply_spec(a, evs)[k] == ad[k - kd.len()]);
                }
            }
            if has_id(kd, id) {
                let k = choose|k: int| 0 <= k < kd.len() && kd[k].id == id;
                assert(apply_spec(a, evs)[k] == kd[k]);
            }
            if has_id(ad, id) {
                let k = choose|k: int| 0 <= k < ad.len() && ad[k].id == id;
                assert(apply_spec(a, evs)[kd.len() + k] == ad[k]);
            }
        }
    }
    assert(id_set(apply_spec(a, diff_spec(a, b))) =~= id_set(b));
}

} // verus!
